//! Regular expressions, as far as the library needs them: what a pattern
//! splits a text into, where it matches, and whether it matches at all.
//!
//! Matching is left to the `regex` crate. What it returns is a function of
//! the pattern and the text; each function below gives that result a name,
//! and nothing is claimed of it beyond the name.

use vstd::prelude::*;
use crate::text::views;

verus! {

/// The error with which `regex` refuses a pattern.
#[verifier::external_type_specification]
#[verifier::external_body]
pub struct ExRegexError(regex::Error);

/// A pattern could not be compiled, so nothing was matched.
#[derive(Debug, Clone, Copy, PartialEq, Eq)]
pub enum SetupFailure {
    /// The `regex` crate refused the pattern: it is malformed, or its
    /// compiled form is over the size limit.
    RejectedPattern,
}

/// Whether `Regex::new` accepts `pattern`.
pub uninterp spec fn pattern_compiles(pattern: Seq<char>) -> bool;

/// The parts of `text` between the matches of `pattern`, in order.
pub uninterp spec fn pattern_split(pattern: Seq<char>, text: Seq<char>) -> Seq<Seq<char>>;

/// The successive non-overlapping matches of `pattern` in `text`, each as the
/// byte offsets of its start and its end in the UTF-8 encoding of the text.
pub uninterp spec fn pattern_ranges(pattern: Seq<char>, text: Seq<char>) -> Seq<(usize, usize)>;

/// Whether `pattern` matches anywhere in `text`.
pub uninterp spec fn pattern_found(pattern: Seq<char>, text: Seq<char>) -> bool;

/// Asks `Regex::new` whether it accepts `pattern`. The contract only names
/// the answer.
#[verifier::external_body]
pub(crate) fn regex_compiles(pattern: &str) -> (r: Result<(), regex::Error>)
    ensures
        r is Ok <==> pattern_compiles(pattern@),
{
    regex::Regex::new(pattern).map(|_| ())
}

/// Compiles `pattern` with `Regex::new` and collects what `Regex::split`
/// yields for `text`. An error of `Regex::new` is handed on. The contract
/// only names the two outcomes.
#[verifier::external_body]
pub(crate) fn regex_split(pattern: &str, text: &str) -> (r: Result<Vec<String>, regex::Error>)
    ensures
        r is Ok <==> pattern_compiles(pattern@),
        r matches Ok(pieces) ==> views(pieces@) == pattern_split(pattern@, text@),
{
    let re = regex::Regex::new(pattern)?;
    Ok(re.split(text).map(|piece| piece.to_string()).collect())
}

/// Compiles `pattern` with `Regex::new` and collects the start and end of
/// each match that `Regex::find_iter` yields for `text`. An error of
/// `Regex::new` is handed on. The contract only names the two outcomes.
#[verifier::external_body]
pub(crate) fn regex_ranges(pattern: &str, text: &str) -> (r: Result<
    Vec<(usize, usize)>,
    regex::Error,
>)
    ensures
        r is Ok <==> pattern_compiles(pattern@),
        r matches Ok(ranges) ==> ranges@ == pattern_ranges(pattern@, text@),
{
    let re = regex::Regex::new(pattern)?;
    Ok(re.find_iter(text).map(|found| (found.start(), found.end())).collect())
}

/// Compiles `pattern` with `Regex::new` and asks `Regex::is_match` for
/// `text`. An error of `Regex::new` is handed on. The contract only names
/// the two outcomes.
#[verifier::external_body]
pub(crate) fn regex_is_match(pattern: &str, text: &str) -> (r: Result<bool, regex::Error>)
    ensures
        r is Ok <==> pattern_compiles(pattern@),
        r matches Ok(found) ==> found == pattern_found(pattern@, text@),
{
    let re = regex::Regex::new(pattern)?;
    Ok(re.is_match(text))
}

/// Checks that `pattern` compiles.
pub fn check_pattern(pattern: &str) -> (r: Result<(), SetupFailure>)
    ensures
        r is Ok <==> pattern_compiles(pattern@),
        r is Err ==> r == Err::<(), SetupFailure>(SetupFailure::RejectedPattern),
{
    match regex_compiles(pattern) {
        Ok(_) => Ok(()),
        Err(_) => Err(SetupFailure::RejectedPattern),
    }
}

/// Splits `text` at the matches of `pattern`.
pub fn split_by_pattern(pattern: &str, text: &str) -> (r: Result<Vec<String>, SetupFailure>)
    ensures
        r is Ok <==> pattern_compiles(pattern@),
        r matches Ok(pieces) ==> views(pieces@) == pattern_split(pattern@, text@),
        r is Err ==> r == Err::<Vec<String>, SetupFailure>(SetupFailure::RejectedPattern),
{
    match regex_split(pattern, text) {
        Ok(pieces) => Ok(pieces),
        Err(_) => Err(SetupFailure::RejectedPattern),
    }
}

/// Finds the matches of `pattern` in `text`, as byte offsets.
pub fn find_by_pattern(pattern: &str, text: &str) -> (r: Result<Vec<(usize, usize)>, SetupFailure>)
    ensures
        r is Ok <==> pattern_compiles(pattern@),
        r matches Ok(ranges) ==> ranges@ == pattern_ranges(pattern@, text@),
        r is Err ==> r == Err::<Vec<(usize, usize)>, SetupFailure>(SetupFailure::RejectedPattern),
{
    match regex_ranges(pattern, text) {
        Ok(ranges) => Ok(ranges),
        Err(_) => Err(SetupFailure::RejectedPattern),
    }
}

/// Whether `pattern` matches anywhere in `text`.
pub fn matches_pattern(pattern: &str, text: &str) -> (r: Result<bool, SetupFailure>)
    ensures
        r is Ok <==> pattern_compiles(pattern@),
        r matches Ok(found) ==> found == pattern_found(pattern@, text@),
        r is Err ==> r == Err::<bool, SetupFailure>(SetupFailure::RejectedPattern),
{
    match regex_is_match(pattern, text) {
        Ok(found) => Ok(found),
        Err(_) => Err(SetupFailure::RejectedPattern),
    }
}

} // verus!
