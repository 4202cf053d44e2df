use abbreviation_detection::matcher::{
    contains_sorted, find_levenshtein_matches, is_within_budget, levenshtein_match_dict,
    lex_order_chars, LevenshteinMatch,
};

fn words(list: &[&str]) -> Vec<String> {
    list.iter().map(|w| w.to_string()).collect()
}

fn letters(word: &str) -> Vec<char> {
    word.chars().collect()
}

#[test]
fn exact_match_by_binary_search() {
    let dict = words(&["patience", "patient", "specimen"]);
    match levenshtein_match_dict("patient".to_string(), 1, &dict, false) {
        LevenshteinMatch::ExactMatch(word) => assert_eq!(word, "patient"),
        other => panic!("expected an exact match, got {:?}", other),
    }
}

#[test]
fn exact_match_in_an_unsorted_vocabulary() {
    // The binary search misses "alpha" here; the complete scan still finds it.
    let dict = words(&["zulu", "mike", "alpha"]);
    assert!(!contains_sorted(&dict, &letters("alpha")));
    match levenshtein_match_dict("alpha".to_string(), 1, &dict, false) {
        LevenshteinMatch::ExactMatch(word) => assert_eq!(word, "alpha"),
        other => panic!("expected an exact match, got {:?}", other),
    }
}

#[test]
fn complete_scan_collects_every_candidate_in_order() {
    let dict = words(&["cat", "cot", "cut", "dog"]);
    match levenshtein_match_dict("cet".to_string(), 1, &dict, false) {
        LevenshteinMatch::ApproximateMatches(found) => {
            assert_eq!(found, words(&["cat", "cot", "cut"]))
        }
        other => panic!("expected candidates, got {:?}", other),
    }
}

#[test]
fn fast_exit_returns_the_first_candidate_only() {
    let dict = words(&["cat", "cot", "cut", "dog"]);
    match levenshtein_match_dict("cet".to_string(), 1, &dict, true) {
        LevenshteinMatch::ApproximateMatches(found) => assert_eq!(found, words(&["cat"])),
        other => panic!("expected one candidate, got {:?}", other),
    }
}

#[test]
fn fast_exit_in_an_unsorted_vocabulary_may_stop_before_the_exact_entry() {
    let dict = words(&["zulu", "mike", "alphas", "alpha"]);
    match levenshtein_match_dict("alpha".to_string(), 1, &dict, true) {
        LevenshteinMatch::ApproximateMatches(found) => assert_eq!(found, words(&["alphas"])),
        other => panic!("expected one candidate, got {:?}", other),
    }
}

#[test]
fn no_candidate_gives_an_empty_list() {
    let dict = words(&["patience", "patient"]);
    match levenshtein_match_dict("zzzzzz".to_string(), 1, &dict, false) {
        LevenshteinMatch::ApproximateMatches(found) => assert!(found.is_empty()),
        other => panic!("expected no candidates, got {:?}", other),
    }
    match levenshtein_match_dict("zzzzzz".to_string(), 1, &Vec::new(), true) {
        LevenshteinMatch::ApproximateMatches(found) => assert!(found.is_empty()),
        other => panic!("expected no candidates, got {:?}", other),
    }
}

#[test]
fn budget_zero_admits_no_candidate() {
    let dict = words(&["cat", "cot"]);
    match levenshtein_match_dict("cet".to_string(), 0, &dict, false) {
        LevenshteinMatch::ApproximateMatches(found) => assert!(found.is_empty()),
        other => panic!("expected no candidates, got {:?}", other),
    }
}

#[test]
fn token_is_lowercased_and_trimmed_before_lookup() {
    let dict = words(&["patience", "patient"]);
    match find_levenshtein_matches("  PATIENT\t".to_string(), 1, &dict, false) {
        LevenshteinMatch::ExactMatch(word) => assert_eq!(word, "patient"),
        other => panic!("expected an exact match, got {:?}", other),
    }
    match find_levenshtein_matches("Patiant".to_string(), 1, &dict, true) {
        LevenshteinMatch::ApproximateMatches(found) => assert_eq!(found, words(&["patient"])),
        other => panic!("expected one candidate, got {:?}", other),
    }
}

#[test]
fn patiant_is_one_edit_from_patient_and_three_from_patience() {
    assert!(is_within_budget(&letters("patiant"), &letters("patient"), 1));
    assert!(!is_within_budget(&letters("patiant"), &letters("patience"), 1));
    assert!(!is_within_budget(&letters("patiant"), &letters("patience"), 2));
    assert!(is_within_budget(&letters("patiant"), &letters("patience"), 3));
}

#[test]
fn binary_search_decides_membership_in_a_sorted_vocabulary() {
    let dict = words(&["alpha", "bravo", "charlie", "delta", "echo"]);
    for word in ["alpha", "bravo", "charlie", "delta", "echo"] {
        assert!(contains_sorted(&dict, &letters(word)));
    }
    for word in ["", "alph", "alphaa", "foxtrot", "cat"] {
        assert!(!contains_sorted(&dict, &letters(word)));
    }
    assert!(!contains_sorted(&Vec::new(), &letters("alpha")));
}

#[test]
fn strings_are_ordered_by_code_point() {
    assert_eq!(lex_order_chars(&letters("abc"), &letters("abd")), -1);
    assert_eq!(lex_order_chars(&letters("abd"), &letters("abc")), 1);
    assert_eq!(lex_order_chars(&letters("abc"), &letters("abc")), 0);
    assert_eq!(lex_order_chars(&letters("ab"), &letters("abc")), -1);
    assert_eq!(lex_order_chars(&letters("abc"), &letters("ab")), 1);
    assert_eq!(lex_order_chars(&letters(""), &letters("")), 0);
    assert_eq!(lex_order_chars(&letters("z"), &letters("\u{e9}")), -1);
}
