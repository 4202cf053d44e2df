use abbreviation_detection::text::{
    chars_of, contains_word, join_strings, normalize, push_all, same_text, split_chars, string_of,
    strings_of,
};
use abbreviation_detection::{damerau_levenshtein, spellcheck_text, SetupFailure};

fn words(list: &[&str]) -> Vec<String> {
    list.iter().map(|w| w.to_string()).collect()
}

fn letters(word: &str) -> Vec<char> {
    word.chars().collect()
}

#[test]
fn characters_of_a_string_and_back() {
    assert_eq!(chars_of("a\u{e9}z"), vec!['a', '\u{e9}', 'z']);
    assert_eq!(chars_of(""), Vec::<char>::new());
    assert_eq!(string_of(&vec!['a', '\u{e9}', 'z']), "a\u{e9}z");
    assert_eq!(string_of(&Vec::new()), "");
}

#[test]
fn normalisation_lowercases_and_trims() {
    assert_eq!(normalize("  PaTient \n"), "patient");
    assert_eq!(normalize("\u{c9}T\u{c9}"), "\u{e9}t\u{e9}");
    assert_eq!(normalize("a b"), "a b");
    assert_eq!(normalize("   "), "");
}

#[test]
fn splitting_keeps_empty_pieces() {
    let pieces = split_chars(&letters(" a  bc "), ' ');
    assert_eq!(pieces, vec![letters(""), letters("a"), letters(""), letters("bc"), letters("")]);
    assert_eq!(split_chars(&letters(""), ' '), vec![letters("")]);
    assert_eq!(split_chars(&letters("abc"), ' '), vec![letters("abc")]);
    assert_eq!(split_chars(&letters(" "), ' '), vec![letters(""), letters("")]);
}

#[test]
fn joining_the_pieces_gives_the_text_back() {
    for text in ["", " ", "a", " a  bc ", "one two three", "  "] {
        let pieces = strings_of(&split_chars(&letters(text), ' '));
        assert_eq!(string_of(&join_strings(&pieces, ' ')), text);
    }
}

#[test]
fn splitting_a_joined_text_gives_the_pieces_back() {
    let pieces = words(&["ab", "", "c", ""]);
    let joined = join_strings(&pieces, ' ');
    assert_eq!(string_of(&joined), "ab  c ");
    assert_eq!(strings_of(&split_chars(&joined, ' ')), pieces);
}

#[test]
fn joining_puts_the_separator_between_pieces_only() {
    assert_eq!(join_strings(&words(&["a", "b", "c"]), '|'), letters("a|b|c"));
    assert_eq!(join_strings(&words(&["a"]), '|'), letters("a"));
    assert_eq!(join_strings(&Vec::new(), '|'), letters(""));
}

#[test]
fn appending_characters() {
    let mut out = letters("ab");
    push_all(&mut out, &letters("cd"));
    push_all(&mut out, &letters(""));
    assert_eq!(out, letters("abcd"));
}

#[test]
fn strings_are_compared_by_their_characters() {
    assert!(same_text("abc", "abc"));
    assert!(same_text("", ""));
    assert!(!same_text("abc", "abd"));
    assert!(!same_text("abc", "ab"));
    assert!(contains_word(&words(&["a", "b"]), "b"));
    assert!(!contains_word(&words(&["a", "b"]), "c"));
    assert!(!contains_word(&Vec::new(), ""));
}

#[test]
fn main_functions_are_at_the_root_of_the_crate() {
    assert_eq!(damerau_levenshtein("ab", "ba", 1), 1);
    assert_eq!(spellcheck_text("ok".to_string(), &Vec::new()), Ok("ok".to_string()));
    assert_ne!(Err::<(), SetupFailure>(SetupFailure::RejectedPattern), Ok(()));
}
