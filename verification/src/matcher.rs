//! Lookup of a token in a vocabulary: exact where the vocabulary holds it,
//! and otherwise the entries within an edit-distance budget.

use vstd::prelude::*;
use crate::distance::{char_distance, comparable, edit_distance};
use crate::edits::{lemma_distance_attained, lemma_distance_minimal, transforms, Edit};
use crate::text::{chars_of, normalize, normalized, views};

verus! {

/// The outcome of looking a token up.
#[derive(Debug)]
pub enum LevenshteinMatch {
    /// The normalised token is an entry of the vocabulary.
    ExactMatch(String),
    /// The entries within the budget, in the order of the vocabulary; none
    /// means that no correction is at hand.
    ApproximateMatches(Vec<String>),
}

/// A lookup outcome as plain sequences of characters.
pub enum MatchView {
    Exact(Seq<char>),
    Approximate(Seq<Seq<char>>),
}

impl View for LevenshteinMatch {
    type V = MatchView;

    open spec fn view(&self) -> MatchView {
        match self {
            LevenshteinMatch::ExactMatch(word) => MatchView::Exact(word@),
            LevenshteinMatch::ApproximateMatches(found) => MatchView::Approximate(views(found@)),
        }
    }
}

/// How `a` stands to `b` from position `k` on, in the lexicographic order of
/// code points: -1 where `a` comes first, 1 where `b` does, 0 where the two
/// agree to the end.
pub open spec fn lex_order_from(a: Seq<char>, b: Seq<char>, k: int) -> int
    decreases a.len() - k,
{
    if k >= a.len() {
        if k >= b.len() {
            0
        } else {
            -1
        }
    } else if k >= b.len() {
        1
    } else if (a[k] as u32) < (b[k] as u32) {
        -1
    } else if (a[k] as u32) > (b[k] as u32) {
        1
    } else {
        lex_order_from(a, b, k + 1)
    }
}

/// How `a` stands to `b` in the lexicographic order of code points.
pub open spec fn lex_order(a: Seq<char>, b: Seq<char>) -> int {
    lex_order_from(a, b, 0)
}

/// Whether the entries stand in ascending lexicographic order.
pub open spec fn sorted(dict: Seq<Seq<char>>) -> bool {
    forall|i: int, j: int| 0 <= i <= j < dict.len() ==> lex_order(#[trigger] dict[i], #[trigger] dict[j]) <= 0
}

/// What a binary search for `word` between `lo` and `hi` answers: it probes
/// the middle entry and goes on in the half that an ascending order would
/// have the word in.
pub open spec fn sorted_lookup(dict: Seq<Seq<char>>, word: Seq<char>, lo: int, hi: int) -> bool
    decreases hi - lo,
{
    if lo >= hi {
        false
    } else {
        let mid = lo + (hi - lo) / 2;
        let order = lex_order(dict[mid], word);
        if order == 0 {
            true
        } else if order < 0 {
            sorted_lookup(dict, word, mid + 1, hi)
        } else {
            sorted_lookup(dict, word, lo, mid)
        }
    }
}

/// Whether `entry` is a correction of `word` within `budget`. A pair too long
/// for machine arithmetic is never one.
pub open spec fn within_budget(word: Seq<char>, entry: Seq<char>, budget: int) -> bool {
    comparable(word, entry) && edit_distance(word, entry) <= budget
}

/// The test that picks the entries within `budget` of `word`.
pub open spec fn budget_test(word: Seq<char>, budget: int) -> spec_fn(Seq<char>) -> bool {
    |entry: Seq<char>| within_budget(word, entry, budget)
}

/// Whether a scan stops at `entry` when it returns at its first finding.
pub open spec fn is_hit(word: Seq<char>, entry: Seq<char>, budget: int) -> bool {
    entry == word || within_budget(word, entry, budget)
}

/// The index of the first entry at or after `from` that a scan stops at, or
/// the length of the vocabulary where there is none.
pub open spec fn first_hit(dict: Seq<Seq<char>>, word: Seq<char>, budget: int, from: int) -> int
    decreases dict.len() - from,
{
    if from >= dict.len() {
        dict.len() as int
    } else if is_hit(word, dict[from], budget) {
        from
    } else {
        first_hit(dict, word, budget, from + 1)
    }
}

/// The outcome of looking up the normalised token `word` in `dict`.
///
/// A hit of the binary search is an exact match. Otherwise the vocabulary is
/// scanned in order. A complete scan gives an exact match where any entry
/// equals the word, and else all entries within the budget. A scan that
/// stops at its first finding gives that entry alone: as an exact match if it
/// equals the word, as the single candidate if not.
pub open spec fn match_outcome(
    word: Seq<char>,
    budget: int,
    dict: Seq<Seq<char>>,
    break_at_first: bool,
) -> MatchView {
    if sorted_lookup(dict, word, 0, dict.len() as int) {
        MatchView::Exact(word)
    } else if break_at_first {
        let n = first_hit(dict, word, budget, 0);
        if n >= dict.len() {
            MatchView::Approximate(Seq::empty())
        } else if dict[n] == word {
            MatchView::Exact(word)
        } else {
            MatchView::Approximate(seq![dict[n]])
        }
    } else if dict.contains(word) {
        MatchView::Exact(word)
    } else {
        MatchView::Approximate(dict.filter(budget_test(word, budget)))
    }
}

/// Comparing from `k` on, swapping the two sequences flips the answer, and
/// the answer is zero only where they agree from `k` on.
pub proof fn lemma_lex_order_from(a: Seq<char>, b: Seq<char>, k: int)
    requires
        0 <= k,
    ensures
        lex_order_from(a, b, k) == -lex_order_from(b, a, k),
        -1 <= lex_order_from(a, b, k) <= 1,
        lex_order_from(a, b, k) == 0 && k <= a.len() && k <= b.len() ==> a.skip(k) == b.skip(k),
    decreases a.len() - k,
{
    if k < a.len() && k < b.len() {
        crate::distance::lemma_code_point_injective(a[k], b[k]);
        if a[k] == b[k] {
            lemma_lex_order_from(a, b, k + 1);
            if lex_order_from(a, b, k) == 0 {
                assert(a.skip(k) =~= seq![a[k]] + a.skip(k + 1));
                assert(b.skip(k) =~= seq![b[k]] + b.skip(k + 1));
            }
        }
    } else if k <= a.len() && k <= b.len() && lex_order_from(a, b, k) == 0 {
        assert(a.skip(k) =~= b.skip(k));
    }
}

/// The order is antisymmetric, and zero exactly between equal sequences.
pub proof fn lemma_lex_order(a: Seq<char>, b: Seq<char>)
    ensures
        lex_order(a, b) == -lex_order(b, a),
        lex_order(a, b) == 0 <==> a == b,
{
    lemma_lex_order_from(a, b, 0);
    if lex_order(a, b) == 0 {
        assert(a.skip(0) =~= a);
        assert(b.skip(0) =~= b);
    }
    if a == b {
        lemma_lex_order_reflexive(a, 0);
    }
}

/// A sequence agrees with itself from any position on.
pub proof fn lemma_lex_order_reflexive(a: Seq<char>, k: int)
    requires
        0 <= k,
    ensures
        lex_order_from(a, a, k) == 0,
    decreases a.len() - k,
{
    if k < a.len() {
        lemma_lex_order_reflexive(a, k + 1);
    }
}

/// A binary search only ever finds what is there.
pub proof fn lemma_sorted_lookup_sound(dict: Seq<Seq<char>>, word: Seq<char>, lo: int, hi: int)
    requires
        0 <= lo,
        hi <= dict.len(),
        sorted_lookup(dict, word, lo, hi),
    ensures
        exists|i: int| lo <= i < hi && dict[i] == word,
    decreases hi - lo,
{
    let mid = lo + (hi - lo) / 2;
    let order = lex_order(dict[mid], word);
    if order == 0 {
        lemma_lex_order(dict[mid], word);
        assert(lo <= mid < hi && dict[mid] == word);
    } else if order < 0 {
        lemma_sorted_lookup_sound(dict, word, mid + 1, hi);
    } else {
        lemma_sorted_lookup_sound(dict, word, lo, mid);
    }
}

/// In a vocabulary in ascending order, a binary search finds every entry.
pub proof fn lemma_sorted_lookup_complete(
    dict: Seq<Seq<char>>,
    word: Seq<char>,
    lo: int,
    hi: int,
    at: int,
)
    requires
        sorted(dict),
        0 <= lo <= at < hi <= dict.len(),
        dict[at] == word,
    ensures
        sorted_lookup(dict, word, lo, hi),
    decreases hi - lo,
{
    let mid = lo + (hi - lo) / 2;
    let order = lex_order(dict[mid], word);
    lemma_lex_order(dict[mid], word);
    if order < 0 {
        if at <= mid {
            assert(lex_order(dict[at], dict[mid]) <= 0);
        }
        lemma_sorted_lookup_complete(dict, word, mid + 1, hi, at);
    } else if order > 0 {
        if at >= mid {
            assert(lex_order(dict[mid], dict[at]) <= 0);
        }
        lemma_sorted_lookup_complete(dict, word, lo, mid, at);
    }
}

/// In a vocabulary in ascending order the binary search decides membership,
/// so a lookup is an exact match exactly where the vocabulary holds the word.
pub proof fn lemma_sorted_lookup_decides(dict: Seq<Seq<char>>, word: Seq<char>)
    requires
        sorted(dict),
    ensures
        sorted_lookup(dict, word, 0, dict.len() as int) <==> dict.contains(word),
{
    if sorted_lookup(dict, word, 0, dict.len() as int) {
        lemma_sorted_lookup_sound(dict, word, 0, dict.len() as int);
    }
    if dict.contains(word) {
        let at = choose|i: int| 0 <= i < dict.len() && dict[i] == word;
        lemma_sorted_lookup_complete(dict, word, 0, dict.len() as int, at);
    }
}

/// The first finding of a scan from `from` on lies at or after `from`, it is
/// a finding where it lies in the vocabulary, and no entry between is one.
pub proof fn lemma_first_hit(dict: Seq<Seq<char>>, word: Seq<char>, budget: int, from: int)
    requires
        0 <= from,
    ensures
        from <= first_hit(dict, word, budget, from) || dict.len() <= first_hit(
            dict,
            word,
            budget,
            from,
        ),
        first_hit(dict, word, budget, from) < dict.len() ==> is_hit(
            word,
            dict[first_hit(dict, word, budget, from)],
            budget,
        ),
        forall|i: int|
            from <= i < first_hit(dict, word, budget, from) && i < dict.len() ==> !is_hit(
                word,
                #[trigger] dict[i],
                budget,
            ),
    decreases dict.len() - from,
{
    if from < dict.len() && !is_hit(word, dict[from], budget) {
        lemma_first_hit(dict, word, budget, from + 1);
    }
}

/// An entry is within the budget of a word exactly where the two can be
/// compared and some script of no more edits than the budget turns the word
/// into the entry.
pub proof fn lemma_within_budget_by_script(word: Seq<char>, entry: Seq<char>, budget: int)
    ensures
        within_budget(word, entry, budget) <==> comparable(word, entry) && exists|
            script: Seq<Edit>,
        | #[trigger] transforms(script, word, entry) && script.len() <= budget,
{
    if within_budget(word, entry, budget) {
        let script = lemma_distance_attained(word, entry);
        assert(transforms(script, word, entry) && script.len() <= budget);
    }
    if exists|script: Seq<Edit>| #[trigger]
        transforms(script, word, entry) && script.len() <= budget {
        let script = choose|script: Seq<Edit>| #[trigger]
            transforms(script, word, entry) && script.len() <= budget;
        lemma_distance_minimal(script, word, entry);
    }
}

/// Compares two character sequences in the lexicographic order of code
/// points.
pub fn lex_order_chars(a: &Vec<char>, b: &Vec<char>) -> (r: i8)
    ensures
        r == lex_order(a@, b@),
{
    let mut k: usize = 0;
    while k < a.len() && k < b.len()
        invariant
            k <= a.len(),
            k <= b.len(),
            lex_order_from(a@, b@, k as int) == lex_order(a@, b@),
        decreases a.len() - k,
    {
        let x = a[k] as u32;
        let y = b[k] as u32;
        if x < y {
            return -1;
        }
        if x > y {
            return 1;
        }
        k += 1;
    }
    if k < b.len() {
        -1
    } else if k < a.len() {
        1
    } else {
        0
    }
}

/// Looks `word` up by binary search. In a vocabulary in ascending order the
/// answer is whether the vocabulary holds the word; in any other it is still
/// never true of a word that is absent.
pub fn contains_sorted(dict: &Vec<String>, word: &Vec<char>) -> (found: bool)
    ensures
        found == sorted_lookup(views(dict@), word@, 0, dict@.len() as int),
        found ==> views(dict@).contains(word@),
        sorted(views(dict@)) ==> (found <==> views(dict@).contains(word@)),
{
    let mut lo: usize = 0;
    let mut hi: usize = dict.len();
    proof {
        if sorted(views(dict@)) {
            lemma_sorted_lookup_decides(views(dict@), word@);
        }
        if sorted_lookup(views(dict@), word@, 0, dict@.len() as int) {
            lemma_sorted_lookup_sound(views(dict@), word@, 0, dict@.len() as int);
        }
    }
    while lo < hi
        invariant
            lo <= hi <= dict.len(),
            sorted_lookup(views(dict@), word@, lo as int, hi as int) == sorted_lookup(
                views(dict@),
                word@,
                0,
                dict@.len() as int,
            ),
            sorted_lookup(views(dict@), word@, 0, dict@.len() as int) ==> views(dict@).contains(
                word@,
            ),
            sorted(views(dict@)) ==> (sorted_lookup(views(dict@), word@, 0, dict@.len() as int)
                <==> views(dict@).contains(word@)),
        decreases hi - lo,
    {
        let mid = lo + (hi - lo) / 2;
        let entry = chars_of(dict[mid].as_str());
        assert(entry@ == views(dict@)[mid as int]);
        let order = lex_order_chars(&entry, word);
        if order == 0 {
            return true;
        } else if order < 0 {
            lo = mid + 1;
        } else {
            hi = mid;
        }
    }
    false
}

/// Whether `entry` lies within `budget` edits of `word`.
pub fn is_within_budget(word: &Vec<char>, entry: &Vec<char>, budget: usize) -> (within: bool)
    ensures
        within == within_budget(word@, entry@, budget as int),
{
    match word.len().checked_add(entry.len()) {
        Some(total) => total < usize::MAX / 2 && char_distance(word, entry, budget) <= budget,
        None => false,
    }
}

/// Looks the normalised token `cleaned_word` up in `dict`, with `threshold`
/// as the edit-distance budget.
///
/// With `break_at_first` the scan returns at its first finding, which is the
/// first entry in the order of the vocabulary and not the nearest one.
pub fn levenshtein_match_dict(
    cleaned_word: String,
    threshold: usize,
    dict: &Vec<String>,
    break_at_first: bool,
) -> (result: LevenshteinMatch)
    ensures
        result@ == match_outcome(cleaned_word@, threshold as int, views(dict@), break_at_first),
{
    let word = chars_of(cleaned_word.as_str());
    if contains_sorted(dict, &word) {
        return LevenshteinMatch::ExactMatch(cleaned_word);
    }
    let ghost entries = views(dict@);
    let ghost within = budget_test(word@, threshold as int);
    let mut res_vec: Vec<String> = Vec::new();
    let mut i: usize = 0;
    proof {
        reveal(Seq::filter);
        assert(entries.take(0) =~= Seq::<Seq<char>>::empty());
        assert(views(res_vec@) =~= entries.take(0).filter(within));
    }
    while i < dict.len()
        invariant
            i <= dict.len(),
            entries == views(dict@),
            word@ == cleaned_word@,
            !sorted_lookup(entries, word@, 0, entries.len() as int),
            within == budget_test(word@, threshold as int),
            !entries.take(i as int).contains(word@),
            views(res_vec@) == entries.take(i as int).filter(within),
            first_hit(entries, word@, threshold as int, 0) == first_hit(
                entries,
                word@,
                threshold as int,
                i as int,
            ) || !break_at_first,
            break_at_first ==> res_vec@.len() == 0,
        decreases dict.len() - i,
    {
        let dict_word = &dict[i];
        assert(dict_word@ == entries[i as int]);
        proof {
            reveal(Seq::filter);
            assert(entries.take(i + 1).drop_last() =~= entries.take(i as int));
            assert(entries.take(i + 1).last() == entries[i as int]);
        }
        if cleaned_word == *dict_word {
            proof {
                if !break_at_first {
                    assert(entries[i as int] == word@);
                }
            }
            return LevenshteinMatch::ExactMatch(cleaned_word);
        } else {
            let entry = chars_of(dict_word.as_str());
            if is_within_budget(&word, &entry, threshold) {
                let ghost before = views(res_vec@);
                res_vec.push(dict_word.clone());
                assert(views(res_vec@) =~= before.push(entries[i as int]));
                if break_at_first {
                    assert(views(res_vec@) =~= seq![entries[i as int]]);
                    return LevenshteinMatch::ApproximateMatches(res_vec);
                }
            }
            assert(!entries.take(i + 1).contains(word@)) by {
                let longer = entries.take(i + 1);
                if longer.contains(word@) {
                    let k = choose|k: int| 0 <= k < longer.len() && longer[k] == word@;
                    if k < i {
                        assert(entries.take(i as int)[k] == word@);
                    }
                }
            }
        }
        i += 1;
    }
    proof {
        assert(entries.take(dict.len() as int) =~= entries);
        if break_at_first {
            assert(views(res_vec@) =~= Seq::<Seq<char>>::empty());
        }
    }
    LevenshteinMatch::ApproximateMatches(res_vec)
}

/// Looks `word` up in `vocabulary` after lowercasing and trimming it.
pub fn find_levenshtein_matches(
    word: String,
    threshold: usize,
    vocabulary: &Vec<String>,
    break_at_first: bool,
) -> (result: LevenshteinMatch)
    ensures
        result@ == match_outcome(
            normalized(word@),
            threshold as int,
            views(vocabulary@),
            break_at_first,
        ),
{
    let cleaned_word = normalize(word.as_str());
    levenshtein_match_dict(cleaned_word, threshold, vocabulary, break_at_first)
}

} // verus!
