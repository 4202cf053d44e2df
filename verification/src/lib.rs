//! Normalisation of clinical-note text: bounded edit-distance matching against
//! a vocabulary, frequency-based disambiguation of spelling candidates, and
//! detection of abbreviations with their positions in the text.
//!
//! The executable functions are verified against contracts over sequences of
//! characters. Three things are left to code outside the crate and taken on
//! trust, each behind a private function that names what it returns:
//! lowercasing and trimming of strings, the appending of a character to a
//! string, and the matching of regular expressions.

pub mod acronyms;
pub mod distance;
pub mod edits;
pub mod frequency;
pub mod matcher;
pub mod patterns;
pub mod spellcheck;
pub mod text;
pub mod vocabulary;

pub use acronyms::{convert_to_hashmap, detect_acronyms, AbbreviationSpan, AbbreviationSpanMap};
pub use distance::{damerau_levenshtein, min4};
pub use frequency::{build_freq_map, find_most_likely_word, FrequencyTable};
pub use matcher::{find_levenshtein_matches, levenshtein_match_dict, LevenshteinMatch};
pub use patterns::SetupFailure;
pub use spellcheck::spellcheck_text;
pub use vocabulary::VocabularyIndex;
