//! Word frequencies within one document, and the choice among several
//! spelling candidates by how often each occurs in it.

use vstd::prelude::*;
use crate::text::{chars_of, contains_word, lemma_split, same_text, split, split_chars, strings_of, views};

verus! {

/// How many times `w` occurs in `words`.
pub open spec fn occurrences(words: Seq<Seq<char>>, w: Seq<char>) -> nat
    decreases words.len(),
{
    if words.len() == 0 {
        0
    } else {
        occurrences(words.drop_last(), w) + if words.last() == w {
            1nat
        } else {
            0nat
        }
    }
}

/// The words of a document without repetitions, in the order in which each
/// first appears.
pub open spec fn distinct_words(words: Seq<Seq<char>>) -> Seq<Seq<char>>
    decreases words.len(),
{
    if words.len() == 0 {
        Seq::empty()
    } else {
        let before = distinct_words(words.drop_last());
        if before.contains(words.last()) {
            before
        } else {
            before.push(words.last())
        }
    }
}

/// The frequency table of one document: its distinct words in order of first
/// appearance, each with the number of times it occurs.
pub struct FrequencyTable {
    pub words: Vec<String>,
    pub counts: Vec<usize>,
}

impl FrequencyTable {
    /// The words of the table as sequences of characters.
    pub open spec fn word_views(&self) -> Seq<Seq<char>> {
        views(self.words@)
    }

    /// Every word has a count, and no word stands twice.
    pub open spec fn wf(&self) -> bool {
        &&& self.words@.len() == self.counts@.len()
        &&& forall|a: int, b: int|
            0 <= a < b < self.words@.len() ==> #[trigger] self.word_views()[a]
                != #[trigger] self.word_views()[b]
    }

    /// The table is that of the document `words`.
    pub open spec fn counts_document(&self, words: Seq<Seq<char>>) -> bool {
        &&& self.wf()
        &&& self.word_views() == distinct_words(words)
        &&& forall|k: int|
            0 <= k < self.counts@.len() ==> #[trigger] self.counts@[k] == occurrences(
                words,
                self.word_views()[k],
            )
    }

    /// The number of distinct words.
    pub fn len(&self) -> (n: usize)
        ensures
            n == self.words@.len(),
    {
        self.words.len()
    }

    /// The position of `word` in the table.
    pub fn position(&self, word: &str) -> (at: Option<usize>)
        ensures
            match at {
                Some(k) => k < self.words@.len() && self.word_views()[k as int] == word@,
                None => !self.word_views().contains(word@),
            },
    {
        let mut i: usize = 0;
        while i < self.words.len()
            invariant
                i <= self.words.len(),
                forall|k: int| 0 <= k < i ==> self.word_views()[k] != word@,
            decreases self.words.len() - i,
        {
            if same_text(self.words[i].as_str(), word) {
                assert(self.word_views()[i as int] == word@);
                return Some(i);
            }
            i += 1;
        }
        None
    }

    /// How often the table says that `word` occurs: the count that stands
    /// with the word, and zero for a word that the table does not hold.
    pub open spec fn count_in(&self, word: Seq<char>) -> int {
        if exists|k: int| 0 <= k < self.words@.len() && self.word_views()[k] == word {
            let k = choose|k: int| 0 <= k < self.words@.len() && self.word_views()[k] == word;
            self.counts@[k] as int
        } else {
            0
        }
    }

    /// How often `word` occurs in the document of the table.
    pub fn count_of(&self, word: &str) -> (n: usize)
        requires
            self.wf(),
        ensures
            n == self.count_in(word@),
    {
        match self.position(word) {
            Some(k) => self.counts[k],
            None => 0,
        }
    }
}

/// The table of a document gives every word the number of times it occurs
/// in the document.
pub proof fn lemma_table_counts(table: FrequencyTable, words: Seq<Seq<char>>, word: Seq<char>)
    requires
        table.counts_document(words),
    ensures
        table.count_in(word) == occurrences(words, word),
{
    lemma_distinct_words(words, word);
    if !table.word_views().contains(word) {
        assert(occurrences(words, word) == 0);
    }
}

/// A word occurs at most as often as the document is long, and it occurs at
/// all exactly where the document holds it.
pub proof fn lemma_occurrences(words: Seq<Seq<char>>, w: Seq<char>)
    ensures
        occurrences(words, w) <= words.len(),
        occurrences(words, w) > 0 <==> words.contains(w),
    decreases words.len(),
{
    if words.len() > 0 {
        lemma_occurrences(words.drop_last(), w);
        if words.drop_last().contains(w) {
            let k = choose|k: int| 0 <= k < words.drop_last().len() && words.drop_last()[k] == w;
            assert(words[k] == w);
        }
        if words.contains(w) && words.last() != w {
            let k = choose|k: int| 0 <= k < words.len() && words[k] == w;
            assert(words.drop_last()[k] == w);
        }
        if words.last() == w {
            assert(words[words.len() - 1] == w);
        }
    }
}

/// The distinct words of a document are its words, each once.
pub proof fn lemma_distinct_words(words: Seq<Seq<char>>, w: Seq<char>)
    ensures
        distinct_words(words).contains(w) <==> words.contains(w),
        occurrences(words, w) > 0 <==> words.contains(w),
        distinct_words(words).no_duplicates(),
        distinct_words(words).len() <= words.len(),
        words.len() > 0 ==> distinct_words(words).len() > 0,
    decreases words.len(),
{
    lemma_occurrences(words, w);
    if words.len() > 0 {
        let shorter = words.drop_last();
        let before = distinct_words(shorter);
        lemma_distinct_words(shorter, w);
        lemma_distinct_words(shorter, words.last());
        if shorter.contains(w) {
            let k = choose|k: int| 0 <= k < shorter.len() && shorter[k] == w;
            assert(words[k] == w);
        }
        if words.contains(w) && words.last() != w {
            let k = choose|k: int| 0 <= k < words.len() && words[k] == w;
            assert(shorter[k] == w);
        }
        if words.last() == w {
            assert(words[words.len() - 1] == w);
        }
        if !before.contains(words.last()) {
            let after = before.push(words.last());
            assert(after[after.len() - 1] == words.last());
            if before.contains(w) {
                let k = choose|k: int| 0 <= k < before.len() && before[k] == w;
                assert(after[k] == w);
            }
            if after.contains(w) && words.last() != w {
                let k = choose|k: int| 0 <= k < after.len() && after[k] == w;
                assert(before[k] == w);
            }
        }
    }
}

/// Counts how often each word occurs.
pub fn build_freq_map(words: Vec<String>) -> (table: FrequencyTable)
    ensures
        table.counts_document(views(words@)),
{
    let ghost document = views(words@);
    let mut table = FrequencyTable { words: Vec::new(), counts: Vec::new() };
    let mut i: usize = 0;
    assert(document.take(0) =~= Seq::<Seq<char>>::empty());
    assert(table.word_views() =~= distinct_words(document.take(0)));
    while i < words.len()
        invariant
            i <= words.len(),
            document == views(words@),
            table.counts_document(document.take(i as int)),
        decreases words.len() - i,
    {
        let word = &words[i];
        let ghost seen = document.take(i as int);
        let ghost next = document.take(i + 1);
        let ghost before = table.word_views();
        let ghost counts_before = table.counts@;
        proof {
            assert(next.drop_last() =~= seen);
            assert(next.last() == word@);
            lemma_distinct_words(seen, word@);
            lemma_occurrences(seen, word@);
        }
        match table.position(word.as_str()) {
            Some(k) => {
                let count = table.counts[k];
                table.counts.set(k, count + 1);
                assert(table.word_views() == before);
                assert forall|m: int| 0 <= m < table.counts@.len() implies #[trigger]
                    table.counts@[m] == occurrences(next, table.word_views()[m]) by {
                    assert(counts_before[m] == occurrences(seen, before[m]));
                }
            },
            None => {
                table.words.push(word.clone());
                table.counts.push(1);
                assert(table.word_views() =~= before.push(word@));
                assert forall|m: int| 0 <= m < table.counts@.len() implies #[trigger]
                    table.counts@[m] == occurrences(next, table.word_views()[m]) by {
                    if m < before.len() {
                        assert(counts_before[m] == occurrences(seen, before[m]));
                    }
                }
                assert forall|a: int, b: int| 0 <= a < b < table.words@.len() implies #[trigger]
                    table.word_views()[a] != #[trigger] table.word_views()[b] by {
                    if b < before.len() {
                        assert(before[a] != before[b]);
                    } else {
                        assert(before[a] != word@);
                    }
                }
            },
        }
        i += 1;
    }
    assert(document.take(words.len() as int) =~= document);
    table
}

/// Whether the distinct word at position `k` leads among the words that
/// `allowed` admits: it is admitted, none of them occurs more often, and of
/// those that occur as often none appears earlier in the document.
pub open spec fn leads(words: Seq<Seq<char>>, allowed: spec_fn(Seq<char>) -> bool, k: int) -> bool {
    let distinct = distinct_words(words);
    &&& 0 <= k < distinct.len()
    &&& allowed(distinct[k])
    &&& forall|m: int|
        0 <= m < distinct.len() && allowed(#[trigger] distinct[m]) ==> {
            ||| occurrences(words, distinct[m]) < occurrences(words, distinct[k])
            ||| (occurrences(words, distinct[m]) == occurrences(words, distinct[k]) && k <= m)
        }
}

/// The test that admits every word.
pub open spec fn any_word() -> spec_fn(Seq<char>) -> bool {
    |w: Seq<char>| true
}

/// The test that admits the candidates.
pub open spec fn one_of(candidates: Seq<Seq<char>>) -> spec_fn(Seq<char>) -> bool {
    |w: Seq<char>| candidates.contains(w)
}

/// Whether `choice` is the word to pick for `candidates` in the document
/// `words`: the leading candidate where any candidate occurs in the
/// document, and the leading word of the document where none does.
pub open spec fn most_likely(
    words: Seq<Seq<char>>,
    candidates: Seq<Seq<char>>,
    choice: Seq<char>,
) -> bool {
    let distinct = distinct_words(words);
    if exists|m: int| 0 <= m < distinct.len() && candidates.contains(#[trigger] distinct[m]) {
        exists|k: int| leads(words, one_of(candidates), k) && #[trigger] distinct[k] == choice
    } else {
        exists|k: int| leads(words, any_word(), k) && #[trigger] distinct[k] == choice
    }
}

/// At most one word leads.
pub proof fn lemma_leader_unique(
    words: Seq<Seq<char>>,
    allowed: spec_fn(Seq<char>) -> bool,
    k: int,
    m: int,
)
    requires
        leads(words, allowed, k),
        leads(words, allowed, m),
    ensures
        k == m,
{
}

/// The choice among the candidates is determined by the document.
pub proof fn lemma_most_likely_unique(
    words: Seq<Seq<char>>,
    candidates: Seq<Seq<char>>,
    a: Seq<char>,
    b: Seq<char>,
)
    requires
        most_likely(words, candidates, a),
        most_likely(words, candidates, b),
    ensures
        a == b,
{
    let distinct = distinct_words(words);
    if exists|m: int| 0 <= m < distinct.len() && candidates.contains(#[trigger] distinct[m]) {
        let k = choose|k: int| leads(words, one_of(candidates), k) && #[trigger] distinct[k] == a;
        let m = choose|m: int| leads(words, one_of(candidates), m) && #[trigger] distinct[m] == b;
        lemma_leader_unique(words, one_of(candidates), k, m);
    } else {
        let k = choose|k: int| leads(words, any_word(), k) && #[trigger] distinct[k] == a;
        let m = choose|m: int| leads(words, any_word(), m) && #[trigger] distinct[m] == b;
        lemma_leader_unique(words, any_word(), k, m);
    }
}

/// Whether position `k` leads among the first `n` distinct words that
/// `allowed` admits.
pub open spec fn leads_so_far(
    table: FrequencyTable,
    allowed: spec_fn(Seq<char>) -> bool,
    n: int,
    k: int,
) -> bool {
    &&& 0 <= k < n
    &&& allowed(table.word_views()[k])
    &&& forall|m: int|
        0 <= m < n && allowed(#[trigger] table.word_views()[m]) ==> {
            ||| table.counts@[m] < table.counts@[k]
            ||| (table.counts@[m] == table.counts@[k] && k <= m)
        }
}

/// Picks, among several candidates for one token, the one that the document
/// speaks for: the candidate that occurs most often in `source_text`, split
/// at single spaces. Where no candidate occurs in the document at all, the
/// most frequent word of the document is returned, candidate or not. Of
/// words that occur equally often the one that appears first wins.
pub fn find_most_likely_word(matches: Vec<String>, source_text: String) -> (choice: String)
    ensures
        most_likely(split(source_text@, ' '), views(matches@), choice@),
{
    let chars = chars_of(source_text.as_str());
    let pieces = split_chars(&chars, ' ');
    let words = strings_of(&pieces);
    let ghost document = views(words@);
    let table = build_freq_map(words);
    proof {
        lemma_split(source_text@, ' ');
        lemma_distinct_words(document, document[0]);
    }
    let mut best: usize = 0;
    let mut best_match: Option<usize> = None;
    let mut k: usize = 0;
    let n = table.len();
    while k < n
        invariant
            k <= n,
            n == table.words@.len(),
            n > 0,
            table.counts_document(document),
            k > 0 ==> leads_so_far(table, any_word(), k as int, best as int),
            k == 0 ==> best == 0,
            match best_match {
                Some(b) => leads_so_far(table, one_of(views(matches@)), k as int, b as int),
                None => forall|m: int|
                    0 <= m < k ==> !views(matches@).contains(#[trigger] table.word_views()[m]),
            },
        decreases n - k,
    {
        if k > 0 && table.counts[k] > table.counts[best] {
            best = k;
        }
        if contains_word(&matches, table.words[k].as_str()) {
            assert(views(matches@).contains(table.word_views()[k as int]));
            match best_match {
                Some(b) => {
                    if table.counts[k] > table.counts[b] {
                        best_match = Some(k);
                    }
                },
                None => {
                    best_match = Some(k);
                },
            }
        }
        k += 1;
    }
    match best_match {
        Some(b) => {
            assert(leads(document, one_of(views(matches@)), b as int));
            assert(table.word_views()[b as int] == table.words@[b as int]@);
            table.words[b].clone()
        },
        None => {
            assert(leads(document, any_word(), best as int));
            assert(table.word_views()[best as int] == table.words@[best as int]@);
            table.words[best].clone()
        },
    }
}

} // verus!
