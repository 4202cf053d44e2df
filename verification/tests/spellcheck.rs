use abbreviation_detection::patterns::split_by_pattern;
use abbreviation_detection::spellcheck::{
    spellcheck_text, spellcheck_token, spellcheck_tokens, SEPARATOR_PATTERN,
};

fn words(list: &[&str]) -> Vec<String> {
    list.iter().map(|w| w.to_string()).collect()
}

#[test]
fn short_tokens_are_never_altered() {
    let vocabulary = words(&["oak", "okay", "on"]);
    assert_eq!(spellcheck_text("ok".to_string(), &vocabulary).unwrap(), "ok");
    assert_eq!(spellcheck_text("ox".to_string(), &Vec::new()).unwrap(), "ox");
    assert_eq!(spellcheck_token("Ok", "Ok then", &vocabulary), "Ok");
    assert_eq!(spellcheck_token("", "", &vocabulary), "");
}

#[test]
fn single_candidate_replaces_the_token() {
    let vocabulary = words(&["patience", "patient"]);
    let corrected = spellcheck_text("the patiant is ok".to_string(), &vocabulary).unwrap();
    assert_eq!(corrected, "the patient is ok");
}

#[test]
fn token_without_candidate_is_kept() {
    let vocabulary = words(&["patience", "patient"]);
    let corrected = spellcheck_text("Xylophone solo".to_string(), &vocabulary).unwrap();
    assert_eq!(corrected, "Xylophone solo");
}

#[test]
fn exact_match_gives_the_normalised_token() {
    let vocabulary = words(&["patience", "patient"]);
    let corrected = spellcheck_text("PATIENT".to_string(), &vocabulary).unwrap();
    assert_eq!(corrected, "patient");
}

#[test]
fn several_candidates_are_decided_by_the_document() {
    let vocabulary = words(&["cat", "cut"]);
    let corrected = spellcheck_text("cot cut cut cat".to_string(), &vocabulary).unwrap();
    assert_eq!(corrected, "cut cut cut cat");
    let corrected = spellcheck_text("cot cat cat cut".to_string(), &vocabulary).unwrap();
    assert_eq!(corrected, "cat cat cat cut");
}

#[test]
fn several_candidates_absent_from_the_document_fall_back_to_its_most_frequent_word() {
    let vocabulary = words(&["cat", "cut"]);
    let corrected = spellcheck_text("cot and and".to_string(), &vocabulary).unwrap();
    assert_eq!(corrected, "and and and");
}

#[test]
fn correction_is_idempotent_on_text_from_the_vocabulary() {
    let vocabulary = words(&["has", "patience", "patient", "the"]);
    let once = spellcheck_text("the patient has patience".to_string(), &vocabulary).unwrap();
    assert_eq!(once, "the patient has patience");
    let twice = spellcheck_text(once.clone(), &vocabulary).unwrap();
    assert_eq!(twice, once);
}

#[test]
fn separators_become_single_spaces() {
    let vocabulary = words(&["patient"]);
    let corrected = spellcheck_text("patient,patient\tpatient".to_string(), &vocabulary).unwrap();
    assert_eq!(corrected, "patient patient patient");
    // Every separator gives one space, so two in a row give two.
    let corrected = spellcheck_text("ab, cd".to_string(), &vocabulary).unwrap();
    assert_eq!(corrected, "ab  cd");
}

#[test]
fn structural_marks_stay_inside_tokens() {
    let pieces = split_by_pattern(SEPARATOR_PATTERN, "a/b [c] (d) **e|f g_h i-j").unwrap();
    assert_eq!(pieces, words(&["a/b", "[c]", "(d)", "**e|f", "g_h", "i", "j"]));
}

#[test]
fn tokens_are_joined_with_single_spaces() {
    let vocabulary = words(&["patient"]);
    let tokens = words(&["patiant", "", "ok"]);
    assert_eq!(spellcheck_tokens(&tokens, "patiant  ok", &vocabulary), "patient  ok");
    assert_eq!(spellcheck_tokens(&Vec::new(), "", &vocabulary), "");
    assert_eq!(spellcheck_tokens(&words(&["patiant"]), "patiant", &vocabulary), "patient");
}

#[test]
fn empty_text_stays_empty() {
    assert_eq!(spellcheck_text(String::new(), &words(&["patient"])).unwrap(), "");
}
