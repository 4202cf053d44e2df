use abbreviation_detection::matcher::LevenshteinMatch;
use abbreviation_detection::vocabulary::VocabularyIndex;

fn words(list: &[&str]) -> Vec<String> {
    list.iter().map(|w| w.to_string()).collect()
}

#[test]
fn index_takes_words_in_ascending_order_only() {
    assert!(VocabularyIndex::new(words(&["alpha", "bravo", "charlie"])).is_some());
    assert!(VocabularyIndex::new(words(&[])).is_some());
    assert!(VocabularyIndex::new(words(&["alpha"])).is_some());
    assert!(VocabularyIndex::new(words(&["bravo", "alpha"])).is_none());
    assert!(VocabularyIndex::new(words(&["alpha", "charlie", "bravo"])).is_none());
}

#[test]
fn index_takes_no_word_twice() {
    assert!(VocabularyIndex::new(words(&["alpha", "alpha"])).is_none());
    assert!(VocabularyIndex::new(words(&["alpha", "bravo", "bravo"])).is_none());
}

#[test]
fn index_order_is_that_of_code_points() {
    assert!(VocabularyIndex::new(words(&["Zulu", "alpha", "\u{e9}t\u{e9}"])).is_some());
    assert!(VocabularyIndex::new(words(&["alpha", "Zulu"])).is_none());
    assert!(VocabularyIndex::new(words(&["ab", "abc"])).is_some());
    assert!(VocabularyIndex::new(words(&["abc", "ab"])).is_none());
}

#[test]
fn index_finds_exactly_its_words() {
    let index = VocabularyIndex::new(words(&["alpha", "bravo", "charlie", "delta"])).unwrap();
    assert_eq!(index.len(), 4);
    assert_eq!(index.iter(), &words(&["alpha", "bravo", "charlie", "delta"]));
    for word in ["alpha", "bravo", "charlie", "delta"] {
        assert!(index.contains_sorted(word));
    }
    for word in ["", "alph", "bravoo", "echo"] {
        assert!(!index.contains_sorted(word));
    }
}

#[test]
fn index_lookup_is_exact_or_by_distance() {
    let index = VocabularyIndex::new(words(&["cat", "cot", "cut", "dog"])).unwrap();
    match index.find("cot".to_string(), 1, true) {
        LevenshteinMatch::ExactMatch(word) => assert_eq!(word, "cot"),
        other => panic!("expected an exact match, got {:?}", other),
    }
    match index.find("cet".to_string(), 1, false) {
        LevenshteinMatch::ApproximateMatches(found) => {
            assert_eq!(found, words(&["cat", "cot", "cut"]))
        }
        other => panic!("expected candidates, got {:?}", other),
    }
    match index.find("cet".to_string(), 1, true) {
        LevenshteinMatch::ApproximateMatches(found) => assert_eq!(found, words(&["cat"])),
        other => panic!("expected one candidate, got {:?}", other),
    }
}
