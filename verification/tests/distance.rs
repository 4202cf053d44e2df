use abbreviation_detection::distance::{damerau_levenshtein, min4};

#[test]
fn min4_picks_the_smallest() {
    assert_eq!(min4(4, 3, 2, 1), 1);
    assert_eq!(min4(1, 2, 3, 4), 1);
    assert_eq!(min4(7, 5, 5, 9), 5);
    assert_eq!(min4(0, 0, 0, 0), 0);
}

#[test]
fn distance_to_itself_is_zero() {
    assert_eq!(damerau_levenshtein("patient", "patient", 0), 0);
    assert_eq!(damerau_levenshtein("patient", "patient", 3), 0);
    assert_eq!(damerau_levenshtein("", "", 1), 0);
}

#[test]
fn distance_is_symmetric() {
    assert_eq!(damerau_levenshtein("kitten", "sitting", 5), 3);
    assert_eq!(damerau_levenshtein("sitting", "kitten", 5), 3);
    assert_eq!(damerau_levenshtein("ca", "abc", 5), damerau_levenshtein("abc", "ca", 5));
}

#[test]
fn single_transposition_costs_one() {
    assert_eq!(damerau_levenshtein("ab", "ba", 1), 1);
}

#[test]
fn transposition_may_bridge_an_insertion() {
    // One transposition and one insertion; the restricted variant needs three edits.
    assert_eq!(damerau_levenshtein("ca", "abc", 3), 2);
}

#[test]
fn budget_zero_tells_equal_from_different() {
    assert!(damerau_levenshtein("abc", "abd", 0) > 0);
    assert!(damerau_levenshtein("abc", "ab", 0) > 0);
    assert_eq!(damerau_levenshtein("abc", "abc", 0), 0);
}

#[test]
fn distance_to_the_empty_string_is_the_length() {
    assert_eq!(damerau_levenshtein("", "abc", 1), 3);
    assert_eq!(damerau_levenshtein("abcd", "", 1), 4);
}

#[test]
fn distance_counts_characters_not_bytes() {
    assert_eq!(damerau_levenshtein("caf\u{e9}", "cafe", 1), 1);
    assert_eq!(damerau_levenshtein("\u{e9}\u{e8}", "\u{e8}\u{e9}", 1), 1);
}

#[test]
fn distance_over_budget_is_still_over_budget() {
    assert!(damerau_levenshtein("abcdef", "uvwxyz", 1) > 1);
    assert_eq!(damerau_levenshtein("abcdef", "uvwxyz", 1), 6);
}

#[test]
fn single_edits_cost_one() {
    assert_eq!(damerau_levenshtein("patiant", "patient", 1), 1);
    assert_eq!(damerau_levenshtein("patiant", "patience", 1), 3);
    assert_eq!(damerau_levenshtein("patien", "patient", 1), 1);
    assert_eq!(damerau_levenshtein("pattient", "patient", 1), 1);
}
