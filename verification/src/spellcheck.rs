//! Spelling correction of a text against a vocabulary.
//!
//! The text is cut into tokens at every character that is neither a word
//! character nor one of `/ [ ] ( ) * |`. Each token is decided on its own,
//! and the decisions are joined with single spaces: the layout of the
//! whitespace of the text is not kept.

use vstd::prelude::*;
use crate::frequency::{find_most_likely_word, lemma_most_likely_unique, most_likely};
use crate::matcher::{find_levenshtein_matches, match_outcome, LevenshteinMatch, MatchView};
use crate::patterns::{pattern_compiles, pattern_split, split_by_pattern, SetupFailure};
use crate::text::{join, join_strings, normalized, split, string_of, views};

verus! {

/// The pattern that matches one separator between tokens.
pub const SEPARATOR_PATTERN: &'static str = "[^\\w\\/\\[\\]\\(\\)\\*|]";

/// The edit-distance budget for corrections.
pub const CORRECTION_BUDGET: usize = 1;

/// The length up to which a token is passed through unchanged.
pub const SHORT_TOKEN: usize = 2;

/// The word that the document speaks for among `candidates`.
pub open spec fn likely_word(document: Seq<char>, candidates: Seq<Seq<char>>) -> Seq<char> {
    choose|w: Seq<char>| most_likely(split(document, ' '), candidates, w)
}

/// What one token becomes.
///
/// A token of at most two characters stays as it is. Any other is looked up
/// with a budget of one edit, by a complete scan of the vocabulary: an exact
/// match gives the normalised token, no candidate leaves the token as it is,
/// a single candidate replaces it, and among several the document decides.
pub open spec fn corrected_token(
    token: Seq<char>,
    vocabulary: Seq<Seq<char>>,
    document: Seq<char>,
) -> Seq<char> {
    if token.len() <= SHORT_TOKEN {
        token
    } else {
        match match_outcome(normalized(token), CORRECTION_BUDGET as int, vocabulary, false) {
            MatchView::Exact(word) => word,
            MatchView::Approximate(candidates) => if candidates.len() == 0 {
                token
            } else if candidates.len() == 1 {
                candidates[0]
            } else {
                likely_word(document, candidates)
            },
        }
    }
}

/// What each token of a text becomes.
pub open spec fn corrected_tokens(
    tokens: Seq<Seq<char>>,
    vocabulary: Seq<Seq<char>>,
    document: Seq<char>,
) -> Seq<Seq<char>> {
    Seq::new(tokens.len(), |i: int| corrected_token(tokens[i], vocabulary, document))
}

/// Whether a token is one that correction leaves alone: a short one, or a
/// word of the vocabulary in the form in which it is looked up.
pub open spec fn already_correct(token: Seq<char>, vocabulary: Seq<Seq<char>>) -> bool {
    token.len() <= SHORT_TOKEN || (normalized(token) == token && vocabulary.contains(token))
}

/// A token that is already correct stays as it is, whatever the document.
pub proof fn lemma_correct_token_is_kept(
    token: Seq<char>,
    vocabulary: Seq<Seq<char>>,
    document: Seq<char>,
)
    requires
        already_correct(token, vocabulary),
    ensures
        corrected_token(token, vocabulary, document) == token,
{
}

/// Correction is idempotent on tokens that are already correct: it returns
/// them unchanged, so a second pass returns what the first did.
pub proof fn lemma_correction_idempotent(
    tokens: Seq<Seq<char>>,
    vocabulary: Seq<Seq<char>>,
    document: Seq<char>,
    later_document: Seq<char>,
)
    requires
        forall|i: int| 0 <= i < tokens.len() ==> already_correct(#[trigger] tokens[i], vocabulary),
    ensures
        corrected_tokens(tokens, vocabulary, document) == tokens,
        corrected_tokens(
            corrected_tokens(tokens, vocabulary, document),
            vocabulary,
            later_document,
        ) == corrected_tokens(tokens, vocabulary, document),
{
    assert(corrected_tokens(tokens, vocabulary, document) =~= tokens);
    assert(corrected_tokens(tokens, vocabulary, later_document) =~= tokens);
}

/// The corrected form of a text: the decisions for its tokens, joined with
/// single spaces.
pub open spec fn corrected_text(text: Seq<char>, vocabulary: Seq<Seq<char>>) -> Seq<char> {
    join(corrected_tokens(pattern_split(SEPARATOR_PATTERN@, text), vocabulary, text), ' ')
}

/// Correction is idempotent on a text whose tokens are all correct already,
/// as far as the tokens are stable: joined with single spaces, they are cut
/// into the same tokens again. Whether they are is up to the separator
/// pattern.
pub proof fn lemma_correction_idempotent_on_stable_text(
    text: Seq<char>,
    vocabulary: Seq<Seq<char>>,
)
    requires
        forall|i: int|
            0 <= i < pattern_split(SEPARATOR_PATTERN@, text).len() ==> already_correct(
                #[trigger] pattern_split(SEPARATOR_PATTERN@, text)[i],
                vocabulary,
            ),
        pattern_split(
            SEPARATOR_PATTERN@,
            join(pattern_split(SEPARATOR_PATTERN@, text), ' '),
        ) == pattern_split(SEPARATOR_PATTERN@, text),
    ensures
        corrected_text(text, vocabulary) == join(pattern_split(SEPARATOR_PATTERN@, text), ' '),
        corrected_text(corrected_text(text, vocabulary), vocabulary) == corrected_text(
            text,
            vocabulary,
        ),
{
    let tokens = pattern_split(SEPARATOR_PATTERN@, text);
    let once = corrected_text(text, vocabulary);
    lemma_correction_idempotent(tokens, vocabulary, text, once);
}

/// Decides one token of the document `text`.
pub fn spellcheck_token(token: &str, text: &str, vocabulary: &Vec<String>) -> (decision: String)
    ensures
        decision@ == corrected_token(token@, views(vocabulary@), text@),
        token@.len() <= SHORT_TOKEN ==> decision@ == token@,
{
    let length = token.unicode_len();
    if length <= SHORT_TOKEN {
        return token.to_owned();
    }
    match find_levenshtein_matches(token.to_owned(), CORRECTION_BUDGET, vocabulary, false) {
        LevenshteinMatch::ExactMatch(word) => word,
        LevenshteinMatch::ApproximateMatches(matches) => {
            if matches.len() < 1 {
                token.to_owned()
            } else if matches.len() < 2 {
                matches[0].clone()
            } else {
                let ghost candidates = views(matches@);
                let choice = find_most_likely_word(matches, text.to_owned());
                proof {
                    lemma_most_likely_unique(
                        split(text@, ' '),
                        candidates,
                        choice@,
                        likely_word(text@, candidates),
                    );
                }
                choice
            }
        },
    }
}

/// Decides every token and joins the decisions with single spaces.
pub fn spellcheck_tokens(tokens: &Vec<String>, text: &str, vocabulary: &Vec<String>) -> (corrected:
    String)
    ensures
        corrected@ == join(corrected_tokens(views(tokens@), views(vocabulary@), text@), ' '),
{
    let ghost expected = corrected_tokens(views(tokens@), views(vocabulary@), text@);
    let mut decisions: Vec<String> = Vec::new();
    let mut i: usize = 0;
    while i < tokens.len()
        invariant
            i <= tokens.len(),
            expected == corrected_tokens(views(tokens@), views(vocabulary@), text@),
            views(decisions@) == expected.take(i as int),
        decreases tokens.len() - i,
    {
        let ghost before = views(decisions@);
        let decision = spellcheck_token(tokens[i].as_str(), text, vocabulary);
        decisions.push(decision);
        assert(views(decisions@) =~= before.push(expected[i as int]));
        assert(expected.take(i + 1) =~= expected.take(i as int).push(expected[i as int]));
        i += 1;
    }
    assert(expected.take(tokens.len() as int) =~= expected);
    string_of(&join_strings(&decisions, ' '))
}

/// Corrects the spelling of `text` against `vocabulary`.
///
/// Fails only where the separator pattern is refused.
pub fn spellcheck_text(text: String, vocabulary: &Vec<String>) -> (result: Result<
    String,
    SetupFailure,
>)
    ensures
        result is Ok <==> pattern_compiles(SEPARATOR_PATTERN@),
        result matches Ok(corrected) ==> corrected@ == corrected_text(text@, views(vocabulary@)),
        result is Err ==> result == Err::<String, SetupFailure>(SetupFailure::RejectedPattern),
{
    match split_by_pattern(SEPARATOR_PATTERN, text.as_str()) {
        Ok(tokens) => Ok(spellcheck_tokens(&tokens, text.as_str(), vocabulary)),
        Err(e) => Err(e),
    }
}

} // verus!
