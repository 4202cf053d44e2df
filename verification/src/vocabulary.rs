//! A vocabulary in ascending order, which a binary search can be trusted on.

use vstd::prelude::*;
use crate::matcher::{
    contains_sorted, lemma_sorted_lookup_decides, levenshtein_match_dict, lex_order,
    lex_order_chars, lex_order_from, match_outcome, sorted, LevenshteinMatch, MatchView,
};
use crate::text::{chars_of, views};

verus! {

/// Whether each entry comes before every later one in the lexicographic
/// order of code points. No word stands twice in such a list.
pub open spec fn strictly_ascending(dict: Seq<Seq<char>>) -> bool {
    forall|i: int, j: int|
        0 <= i < j < dict.len() ==> lex_order(#[trigger] dict[i], #[trigger] dict[j]) < 0
}

/// From position `k` on, the order is transitive, and strict where one of
/// the two steps is.
pub proof fn lemma_lex_order_from_transitive(a: Seq<char>, b: Seq<char>, c: Seq<char>, k: int)
    requires
        0 <= k,
        lex_order_from(a, b, k) <= 0,
        lex_order_from(b, c, k) <= 0,
    ensures
        lex_order_from(a, c, k) <= 0,
        lex_order_from(a, b, k) < 0 || lex_order_from(b, c, k) < 0 ==> lex_order_from(a, c, k) < 0,
    decreases a.len() - k,
{
    if k < a.len() && k < b.len() && k < c.len() {
        if (a[k] as u32) == (b[k] as u32) && (b[k] as u32) == (c[k] as u32) {
            lemma_lex_order_from_transitive(a, b, c, k + 1);
        }
    }
}

/// The order is transitive, and strict where one of the two steps is.
pub proof fn lemma_lex_order_transitive(a: Seq<char>, b: Seq<char>, c: Seq<char>)
    requires
        lex_order(a, b) <= 0,
        lex_order(b, c) <= 0,
    ensures
        lex_order(a, c) <= 0,
        lex_order(a, b) < 0 || lex_order(b, c) < 0 ==> lex_order(a, c) < 0,
{
    lemma_lex_order_from_transitive(a, b, c, 0);
}

/// A list in strictly ascending order is in ascending order, and holds no
/// word twice.
pub proof fn lemma_strictly_ascending(dict: Seq<Seq<char>>)
    requires
        strictly_ascending(dict),
    ensures
        sorted(dict),
        dict.no_duplicates(),
{
    assert forall|i: int, j: int| 0 <= i <= j < dict.len() implies lex_order(
        #[trigger] dict[i],
        #[trigger] dict[j],
    ) <= 0 by {
        if i == j {
            crate::matcher::lemma_lex_order(dict[i], dict[j]);
        }
    }
    assert forall|i: int, j: int| 0 <= i < dict.len() && 0 <= j < dict.len() && i != j implies dict[i]
        != dict[j] by {
        crate::matcher::lemma_lex_order(dict[i], dict[j]);
        if i < j {
            assert(lex_order(dict[i], dict[j]) < 0);
        } else {
            assert(lex_order(dict[j], dict[i]) < 0);
            crate::matcher::lemma_lex_order(dict[j], dict[i]);
        }
    }
}

/// A vocabulary for exact lookup by binary search and for scans in order.
pub struct VocabularyIndex {
    pub words: Vec<String>,
}

impl View for VocabularyIndex {
    type V = Seq<Seq<char>>;

    open spec fn view(&self) -> Seq<Seq<char>> {
        views(self.words@)
    }
}

impl VocabularyIndex {
    /// The words stand in strictly ascending order.
    pub open spec fn wf(&self) -> bool {
        strictly_ascending(self@)
    }

    /// Makes an index of `words`, which have to be in strictly ascending
    /// order; of any other list, none.
    pub fn new(words: Vec<String>) -> (index: Option<VocabularyIndex>)
        ensures
            match index {
                Some(index) => index.wf() && index.words@ == words@,
                None => !strictly_ascending(views(words@)),
            },
    {
        let ghost dict = views(words@);
        let mut i: usize = 1;
        while i < words.len()
            invariant
                1 <= i,
                dict == views(words@),
                forall|a: int, b: int|
                    0 <= a < b < i && b < dict.len() ==> lex_order(
                        #[trigger] dict[a],
                        #[trigger] dict[b],
                    ) < 0,
            decreases words.len() - i,
        {
            let earlier = chars_of(words[i - 1].as_str());
            let later = chars_of(words[i].as_str());
            assert(earlier@ == dict[i - 1]);
            assert(later@ == dict[i as int]);
            if lex_order_chars(&earlier, &later) >= 0 {
                return None;
            }
            assert forall|a: int, b: int| 0 <= a < b < i + 1 && b < dict.len() implies lex_order(
                #[trigger] dict[a],
                #[trigger] dict[b],
            ) < 0 by {
                if b == i && a < i - 1 {
                    lemma_lex_order_transitive(dict[a], dict[i - 1], dict[i as int]);
                }
            }
            i += 1;
        }
        Some(VocabularyIndex { words })
    }

    /// The number of words.
    pub fn len(&self) -> (n: usize)
        ensures
            n == self@.len(),
    {
        self.words.len()
    }

    /// The words in their order, for scans.
    pub fn iter(&self) -> (words: &Vec<String>)
        ensures
            views(words@) == self@,
    {
        &self.words
    }

    /// Whether the vocabulary holds `word`.
    pub fn contains_sorted(&self, word: &str) -> (found: bool)
        requires
            self.wf(),
        ensures
            found == self@.contains(word@),
    {
        proof {
            lemma_strictly_ascending(self@);
        }
        let letters = chars_of(word);
        contains_sorted(&self.words, &letters)
    }

    /// Looks the normalised token `cleaned_word` up, with `threshold` as the
    /// edit-distance budget. The match is exact exactly where the vocabulary
    /// holds the word.
    pub fn find(&self, cleaned_word: String, threshold: usize, break_at_first: bool) -> (result:
        LevenshteinMatch)
        requires
            self.wf(),
        ensures
            result@ == match_outcome(cleaned_word@, threshold as int, self@, break_at_first),
            result@ is Exact <==> self@.contains(cleaned_word@),
            result@ is Exact ==> result@ == MatchView::Exact(cleaned_word@),
    {
        proof {
            lemma_strictly_ascending(self@);
            lemma_sorted_lookup_decides(self@, cleaned_word@);
            crate::matcher::lemma_first_hit(self@, cleaned_word@, threshold as int, 0);
        }
        levenshtein_match_dict(cleaned_word, threshold, &self.words, break_at_first)
    }
}

} // verus!
