use abbreviation_detection::acronyms::{
    blank_ranges, build_bigram_pattern, convert_to_hashmap, detect_acronyms, find_chars,
    is_abbreviation_word, judge_tokens, replace_with_space, PUNCTUATION_PATTERN, TAG_PATTERN,
};
use abbreviation_detection::patterns::{check_pattern, matches_pattern, SetupFailure};

fn words(list: &[&str]) -> Vec<String> {
    list.iter().map(|w| w.to_string()).collect()
}

fn letters(word: &str) -> Vec<char> {
    word.chars().collect()
}

fn spans_of(text: &str, excl: &[&str], incl: &[&str], problematic: &[&str], bigrams: &[&str])
    -> Vec<(usize, usize, String, bool)> {
    let map = detect_acronyms(
        text.to_string(),
        &words(excl),
        &words(incl),
        &words(problematic),
        &words(bigrams),
    )
    .unwrap();
    map.spans.iter().map(|s| (s.start, s.end, s.abbreviation.clone(), s.exact)).collect()
}

#[test]
fn tagged_span_is_left_out_and_abbreviations_keep_their_positions() {
    let text = "The pt **note[ref]** has sob.";
    let found = spans_of(text, &["the", "has"], &[], &["**"], &[]);
    assert_eq!(
        found,
        vec![(4, 6, "pt".to_string(), true), (25, 28, "sob".to_string(), true)]
    );
    for (start, end, word, _) in &found {
        assert_eq!(text[*start..*end].to_lowercase(), *word);
    }
}

#[test]
fn asterisks_left_after_a_tag_are_a_token_of_their_own() {
    let text = "The pt **note[ref]** has sob.";
    let found = spans_of(text, &["the", "has"], &[], &[], &[]);
    assert_eq!(
        found,
        vec![
            (4, 6, "pt".to_string(), true),
            (18, 20, "**".to_string(), true),
            (25, 28, "sob".to_string(), true)
        ]
    );
}

#[test]
fn spans_lie_in_the_text_and_never_overlap() {
    let text = "Pt c/o SOB, hx of CHF; bp 120/80 - rx ASA qd. **tag[x]** f/u w/ PCP";
    let map = detect_acronyms(text.to_string(), &words(&["of"]), &[].to_vec(), &[].to_vec(), &[].to_vec())
        .unwrap();
    assert!(map.len() > 0);
    let length = text.chars().count();
    let mut last_end = 0;
    for span in &map.spans {
        assert!(span.start < span.end);
        assert!(span.end <= length);
        assert!(last_end <= span.start);
        last_end = span.end;
        let part: String = text.chars().skip(span.start).take(span.end - span.start).collect();
        assert_eq!(part.to_lowercase().trim(), span.abbreviation);
    }
}

#[test]
fn uppercase_token_gets_the_range_of_the_whole_token() {
    let found = spans_of("see CHF now", &["see", "now"], &[], &[], &[]);
    assert_eq!(found, vec![(4, 7, "chf".to_string(), false)]);
}

#[test]
fn positions_count_characters() {
    // The accented letters take two bytes each and one position each.
    let found = spans_of("\u{e9}ta pt", &["\u{e9}ta"], &[], &[], &[]);
    assert_eq!(found, vec![(4, 6, "pt".to_string(), true)]);
}

#[test]
fn inclusion_word_is_an_abbreviation_whatever_its_length() {
    let found = spans_of("given aspirin today", &["given", "aspirin", "today"], &["aspirin"], &[], &[]);
    assert_eq!(found, vec![(6, 13, "aspirin".to_string(), true)]);
    assert!(is_abbreviation_word("aspirin", &words(&["aspirin"]), &words(&["aspirin"]), &Vec::new(), false));
}

#[test]
fn long_word_with_a_vowel_is_no_abbreviation() {
    assert!(spans_of("patient", &["patient"], &[], &[], &[]).is_empty());
    assert!(spans_of("patient", &[], &[], &[], &[]).is_empty());
    assert!(!is_abbreviation_word("patient", &words(&["patient"]), &Vec::new(), &Vec::new(), false));
}

#[test]
fn problematic_word_is_never_an_abbreviation() {
    assert!(spans_of("pt", &[], &["pt"], &["pt"], &[]).is_empty());
    assert!(!is_abbreviation_word("pt", &Vec::new(), &words(&["pt"]), &words(&["pt"]), true));
    assert!(is_abbreviation_word("pt", &Vec::new(), &Vec::new(), &Vec::new(), false));
}

#[test]
fn short_word_of_the_exclusion_vocabulary_is_no_abbreviation() {
    assert!(spans_of("the", &["the"], &[], &[], &[]).is_empty());
    assert_eq!(spans_of("teh", &["the"], &[], &[], &[]), vec![(0, 3, "teh".to_string(), true)]);
}

#[test]
fn word_without_vowel_is_an_abbreviation() {
    assert_eq!(
        spans_of("rhythm", &["rhythm"], &[], &[], &[]),
        vec![(0, 6, "rhythm".to_string(), true)]
    );
}

#[test]
fn word_with_an_impossible_bigram_is_an_abbreviation() {
    assert_eq!(
        spans_of("plaqxen dose", &["plaqxen", "dose"], &[], &[], &["qx", "zj"]),
        vec![(0, 7, "plaqxen".to_string(), true)]
    );
    assert!(spans_of("plaqxen dose", &["plaqxen", "dose"], &[], &[], &["zj"]).is_empty());
}

#[test]
fn single_characters_and_empty_tokens_are_no_abbreviations() {
    assert!(spans_of("a  b", &[], &["a", "b", ""], &[], &[]).is_empty());
    assert!(spans_of("", &[], &[], &[], &[]).is_empty());
}

#[test]
fn refused_bigram_pattern_is_a_setup_failure() {
    let result = detect_acronyms(
        "pt".to_string(),
        &Vec::new(),
        &Vec::new(),
        &Vec::new(),
        &words(&["(("]),
    );
    assert_eq!(result.err(), Some(SetupFailure::RejectedPattern));
    assert_eq!(check_pattern("((").err(), Some(SetupFailure::RejectedPattern));
    assert!(check_pattern(TAG_PATTERN).is_ok());
    assert!(check_pattern(PUNCTUATION_PATTERN).is_ok());
    assert_eq!(matches_pattern("((", "x").err(), Some(SetupFailure::RejectedPattern));
}

#[test]
fn bigram_pattern_lists_the_bigrams_as_alternatives() {
    assert_eq!(build_bigram_pattern(&words(&["qx", "zj", "vq"])), "[^ ]*(qx|zj|vq)[^ ]*");
    assert_eq!(build_bigram_pattern(&words(&["qx"])), "[^ ]*(qx)[^ ]*");
    assert_eq!(matches_pattern("[^ ]*(qx|zj)[^ ]*", "plaqxen"), Ok(true));
    assert_eq!(matches_pattern("[^ ]*(qx|zj)[^ ]*", "plaxqen"), Ok(false));
}

#[test]
fn tags_are_blanked_character_for_character() {
    let (ranges, text) = replace_with_space("a **t\u{e9}[x] b **c", TAG_PATTERN).unwrap();
    assert_eq!(ranges, vec![(2, 10)]);
    assert_eq!(text, "a         b **c");
}

#[test]
fn punctuation_and_digits_are_blanked() {
    let (_, text) = replace_with_space("a.b?c!d,e(f)g1h:i;j-k_l+m=n|o", PUNCTUATION_PATTERN).unwrap();
    assert_eq!(text, "a b c d e f g h i j k l m n o");
    let (_, text) = replace_with_space("ABC <x> [y] /z *w", PUNCTUATION_PATTERN).unwrap();
    assert_eq!(text, "ABC <x> [y] /z *w");
}

#[test]
fn ranges_are_byte_offsets_of_the_text() {
    // 'é' takes the bytes 1 and 2, so the range 3..4 holds the third character.
    assert_eq!(blank_ranges(&letters("a\u{e9}bc"), &vec![(3, 4)]), letters("a\u{e9} c"));
    assert_eq!(blank_ranges(&letters("a\u{e9}bc"), &vec![(1, 3)]), letters("a bc"));
    assert_eq!(blank_ranges(&letters("abc"), &vec![]), letters("abc"));
    assert_eq!(blank_ranges(&letters("abc"), &vec![(0, 1), (2, 3)]), letters(" b "));
}

#[test]
fn first_occurrence_is_found() {
    assert_eq!(find_chars(&letters("abcabc"), &letters("bc")), Some(1));
    assert_eq!(find_chars(&letters("abcabc"), &letters("abcabc")), Some(0));
    assert_eq!(find_chars(&letters("abcabc"), &letters("cb")), None);
    assert_eq!(find_chars(&letters("abc"), &letters("abcd")), None);
    assert_eq!(find_chars(&letters("abc"), &letters("")), Some(0));
    assert_eq!(find_chars(&letters(""), &letters("")), Some(0));
}

#[test]
fn cursor_moves_by_each_token_and_one_separator() {
    let tokens = words(&["ab", "", "cde", " fg"]);
    let verdicts = vec![Some("ab".to_string()), None, None, Some("fg".to_string())];
    let map = convert_to_hashmap(&verdicts, &tokens);
    let found: Vec<(usize, usize, String, bool)> =
        map.spans.iter().map(|s| (s.start, s.end, s.abbreviation.clone(), s.exact)).collect();
    assert_eq!(found, vec![(0, 2, "ab".to_string(), true), (9, 11, "fg".to_string(), true)]);
    assert_eq!(map.get(9, 11), Some(&"fg".to_string()));
    assert_eq!(map.get(9, 12), None);
    assert_eq!(map.len(), 2);
}

#[test]
fn tokens_are_judged_one_by_one() {
    let verdicts = judge_tokens(
        &words(&["The", "PT", "", "x", "aspirin"]),
        &words(&["the"]),
        &Vec::new(),
        &Vec::new(),
        &Vec::new(),
    )
    .unwrap();
    assert_eq!(verdicts, vec![None, Some("pt".to_string()), None, None, None]);
}
