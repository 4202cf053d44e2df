use abbreviation_detection::frequency::{build_freq_map, find_most_likely_word};

fn words(list: &[&str]) -> Vec<String> {
    list.iter().map(|w| w.to_string()).collect()
}

#[test]
fn frequency_table_counts_each_word_once_per_occurrence() {
    let table = build_freq_map(words(&["b", "a", "b", "c", "b", "a"]));
    assert_eq!(table.words, words(&["b", "a", "c"]));
    assert_eq!(table.counts, vec![3, 2, 1]);
    assert_eq!(table.len(), 3);
    assert_eq!(table.count_of("b"), 3);
    assert_eq!(table.count_of("a"), 2);
    assert_eq!(table.count_of("c"), 1);
    assert_eq!(table.count_of("d"), 0);
    assert_eq!(table.position("c"), Some(2));
    assert_eq!(table.position("d"), None);
}

#[test]
fn frequency_table_of_nothing_is_empty() {
    let table = build_freq_map(Vec::new());
    assert!(table.words.is_empty());
    assert!(table.counts.is_empty());
    assert_eq!(table.count_of("a"), 0);
}

#[test]
fn frequency_table_keeps_case_as_encountered() {
    let table = build_freq_map(words(&["Pt", "pt", "Pt"]));
    assert_eq!(table.words, words(&["Pt", "pt"]));
    assert_eq!(table.counts, vec![2, 1]);
}

#[test]
fn more_frequent_candidate_wins_over_alphabetical_order() {
    let document = "patience is a virtue patience patience the patient has patience and more patience";
    let choice = find_most_likely_word(words(&["patient", "patience"]), document.to_string());
    assert_eq!(choice, "patience");
    let choice = find_most_likely_word(words(&["patience", "patient"]), document.to_string());
    assert_eq!(choice, "patience");
}

#[test]
fn candidate_wins_over_a_more_frequent_word_that_is_no_candidate() {
    let document = "the the the the patient the patience patient";
    let choice = find_most_likely_word(words(&["patient", "patience"]), document.to_string());
    assert_eq!(choice, "patient");
}

#[test]
fn without_a_candidate_in_the_document_the_most_frequent_word_is_returned() {
    let document = "the note says the dose was given";
    let choice = find_most_likely_word(words(&["patient", "patience"]), document.to_string());
    assert_eq!(choice, "the");
}

#[test]
fn of_equally_frequent_candidates_the_first_in_the_document_wins() {
    let document = "cut cat cat cut";
    assert_eq!(find_most_likely_word(words(&["cat", "cut"]), document.to_string()), "cut");
    let document = "cat cut cut cat";
    assert_eq!(find_most_likely_word(words(&["cat", "cut"]), document.to_string()), "cat");
}

#[test]
fn document_is_split_at_single_spaces_only() {
    // Two spaces in a row hold an empty word between them; a tab does not split.
    let document = "a  b  c\td";
    assert_eq!(find_most_likely_word(words(&["zzz"]), document.to_string()), "");
    assert_eq!(find_most_likely_word(words(&["c\td"]), document.to_string()), "c\td");
}

#[test]
fn empty_document_has_the_empty_word_only() {
    assert_eq!(find_most_likely_word(words(&["cat"]), String::new()), "");
}
