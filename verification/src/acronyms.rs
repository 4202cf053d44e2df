//! Detection of abbreviations and acronyms, each with the range of
//! characters that it takes in the text.
//!
//! Structured tags and punctuation are blanked out, character for character,
//! so every character that is left keeps its position. What stands between
//! the spaces that remain is judged token by token.

use vstd::prelude::*;
use crate::patterns::{
    check_pattern, find_by_pattern, matches_pattern, pattern_compiles, pattern_found,
    pattern_ranges, SetupFailure,
};
use crate::text::{
    chars_of, contains_word, join, join_strings, lemma_split, normalize, normalized, piece_start,
    push_all, split, split_chars, string_of, strings_of, views,
};

verus! {

/// The pattern of a structured tag: two asterisks, then a bracketed part.
pub const TAG_PATTERN: &'static str = "\\*\\*[^\\[]*\\[[^\\]]*\\]";

/// The pattern of one character of punctuation, or one digit.
pub const PUNCTUATION_PATTERN: &'static str = "[\\.\\?!,\\(\\)\\d:;\\-_+=|]";

/// The number of bytes that `c` takes in UTF-8.
pub open spec fn utf8_width(c: char) -> int {
    if (c as u32) < 0x80 {
        1
    } else if (c as u32) < 0x800 {
        2
    } else if (c as u32) < 0x10000 {
        3
    } else {
        4
    }
}

/// The byte offset in UTF-8 at which character `i` of `text` starts.
pub open spec fn byte_offset(text: Seq<char>, i: int) -> int
    decreases i,
{
    if i <= 0 {
        0
    } else {
        byte_offset(text, i - 1) + utf8_width(text[i - 1])
    }
}

/// Whether one of the first `n` ranges holds the byte offset `at`.
pub open spec fn covered_by_first(ranges: Seq<(usize, usize)>, at: int, n: int) -> bool {
    exists|k: int| 0 <= k < n && k < ranges.len() && (#[trigger] ranges[k]).0 <= at < ranges[k].1
}

/// Whether one of the ranges holds the byte offset `at`.
pub open spec fn covered(ranges: Seq<(usize, usize)>, at: int) -> bool {
    covered_by_first(ranges, at, ranges.len() as int)
}

/// The text with a space in place of every character that starts inside one
/// of the byte ranges. The result has as many characters as the text, and
/// the characters outside the ranges are where they were.
pub open spec fn blanked(text: Seq<char>, ranges: Seq<(usize, usize)>) -> Seq<char> {
    Seq::new(
        text.len(),
        |i: int|
            if covered(ranges, byte_offset(text, i)) {
                ' '
            } else {
                text[i]
            },
    )
}

/// A byte offset lies within four bytes for each character before it.
pub proof fn lemma_byte_offset_bounds(text: Seq<char>, i: int)
    requires
        0 <= i,
    ensures
        i <= byte_offset(text, i) <= 4 * i,
    decreases i,
{
    if i > 0 {
        lemma_byte_offset_bounds(text, i - 1);
    }
}

/// The number of bytes that `c` takes in UTF-8.
pub fn width_of(c: char) -> (w: u8)
    ensures
        w == utf8_width(c),
{
    let code = c as u32;
    if code < 0x80 {
        1
    } else if code < 0x800 {
        2
    } else if code < 0x10000 {
        3
    } else {
        4
    }
}

/// Whether one of the ranges holds the byte offset `at`.
pub fn is_covered(ranges: &Vec<(usize, usize)>, at: u128) -> (found: bool)
    ensures
        found == covered(ranges@, at as int),
{
    let mut k: usize = 0;
    while k < ranges.len()
        invariant
            k <= ranges.len(),
            !covered_by_first(ranges@, at as int, k as int),
        decreases ranges.len() - k,
    {
        let range = ranges[k];
        if (range.0 as u128) <= at && at < (range.1 as u128) {
            return true;
        }
        k += 1;
    }
    false
}

/// Puts a space in place of every character of `text` that starts inside one
/// of the byte ranges.
pub fn blank_ranges(text: &Vec<char>, ranges: &Vec<(usize, usize)>) -> (out: Vec<char>)
    ensures
        out@ == blanked(text@, ranges@),
{
    let mut out: Vec<char> = Vec::new();
    let mut at: u128 = 0;
    let mut i: usize = 0;
    while i < text.len()
        invariant
            i <= text.len(),
            at == byte_offset(text@, i as int),
            out@ == blanked(text@, ranges@).take(i as int),
        decreases text.len() - i,
    {
        proof {
            lemma_byte_offset_bounds(text@, i as int);
        }
        let c = text[i];
        let shown = if is_covered(ranges, at) {
            ' '
        } else {
            c
        };
        out.push(shown);
        assert(blanked(text@, ranges@).take(i + 1) =~= blanked(text@, ranges@).take(i as int).push(
            shown,
        ));
        at = at + width_of(c) as u128;
        i += 1;
    }
    assert(blanked(text@, ranges@).take(text.len() as int) =~= blanked(text@, ranges@));
    out
}

/// Finds the matches of `pattern` in `text` and blanks them out. Returns the
/// byte ranges of the matches with the blanked text.
pub fn replace_with_space(text: &str, pattern: &str) -> (r: Result<
    (Vec<(usize, usize)>, String),
    SetupFailure,
>)
    ensures
        r is Ok <==> pattern_compiles(pattern@),
        r matches Ok(found) ==> {
            &&& found.0@ == pattern_ranges(pattern@, text@)
            &&& found.1@ == blanked(text@, pattern_ranges(pattern@, text@))
        },
        r is Err ==> r == Err::<(Vec<(usize, usize)>, String), SetupFailure>(
            SetupFailure::RejectedPattern,
        ),
{
    match find_by_pattern(pattern, text) {
        Ok(ranges) => {
            let letters = chars_of(text);
            let out = blank_ranges(&letters, &ranges);
            Ok((ranges, string_of(&out)))
        },
        Err(e) => Err(e),
    }
}

/// One abbreviation found in a text.
#[derive(Debug)]
pub struct AbbreviationSpan {
    /// The position of the first character of the range.
    pub start: usize,
    /// The position after the last character of the range.
    pub end: usize,
    /// The abbreviation, lowercased and trimmed.
    pub abbreviation: String,
    /// Whether the range holds the abbreviation letter for letter. Where the
    /// abbreviation could not be located inside its token, the range is that
    /// of the whole token and this is `false`.
    pub exact: bool,
}

/// An abbreviation span as plain values.
pub struct SpanView {
    pub start: int,
    pub end: int,
    pub abbreviation: Seq<char>,
    pub exact: bool,
}

impl View for AbbreviationSpan {
    type V = SpanView;

    open spec fn view(&self) -> SpanView {
        SpanView {
            start: self.start as int,
            end: self.end as int,
            abbreviation: self.abbreviation@,
            exact: self.exact,
        }
    }
}

/// The abbreviations of one text, each under its range: a map from ranges to
/// abbreviations, kept in the order of the text.
#[derive(Debug)]
pub struct AbbreviationSpanMap {
    pub spans: Vec<AbbreviationSpan>,
}

impl View for AbbreviationSpanMap {
    type V = Seq<SpanView>;

    open spec fn view(&self) -> Seq<SpanView> {
        Seq::new(self.spans@.len(), |i: int| self.spans@[i]@)
    }
}

/// No range is empty, and each range ends before the next one starts.
pub open spec fn ordered(spans: Seq<SpanView>) -> bool {
    &&& forall|i: int| 0 <= i < spans.len() ==> 0 <= (#[trigger] spans[i]).start < spans[i].end
    &&& forall|i: int, j: int|
        0 <= i < j < spans.len() ==> (#[trigger] spans[i]).end <= (#[trigger] spans[j]).start
}

/// Every range ends within the first `length` characters.
pub open spec fn within(spans: Seq<SpanView>, length: int) -> bool {
    forall|i: int| 0 <= i < spans.len() ==> (#[trigger] spans[i]).end <= length
}

impl AbbreviationSpanMap {
    /// The number of abbreviations.
    pub fn len(&self) -> (n: usize)
        ensures
            n == self@.len(),
    {
        self.spans.len()
    }

    /// The abbreviation whose range is `start` to `end`.
    pub fn get(&self, start: usize, end: usize) -> (found: Option<&String>)
        ensures
            match found {
                Some(word) => exists|i: int|
                    0 <= i < self@.len() && (#[trigger] self@[i]).start == start && self@[i].end
                        == end && self@[i].abbreviation == word@,
                None => forall|i: int|
                    0 <= i < self@.len() ==> !((#[trigger] self@[i]).start == start && self@[i].end
                        == end),
            },
    {
        let mut i: usize = 0;
        while i < self.spans.len()
            invariant
                i <= self.spans.len(),
                forall|k: int|
                    0 <= k < i ==> !((#[trigger] self@[k]).start == start && self@[k].end == end),
            decreases self.spans.len() - i,
        {
            if self.spans[i].start == start && self.spans[i].end == end {
                assert(self@[i as int].abbreviation == self.spans@[i as int].abbreviation@);
                return Some(&self.spans[i].abbreviation);
            }
            i += 1;
        }
        None
    }
}

/// Whether `needle` stands in `hay` at position `k`.
pub open spec fn occurs_at(hay: Seq<char>, needle: Seq<char>, k: int) -> bool {
    0 <= k && k + needle.len() <= hay.len() && hay.subrange(k, k + needle.len()) == needle
}

/// The first position at or after `from` at which `needle` stands in `hay`.
pub open spec fn first_occurrence(hay: Seq<char>, needle: Seq<char>, from: int) -> Option<int>
    decreases hay.len() + 1 - from,
{
    if from < 0 || from + needle.len() > hay.len() {
        None
    } else if occurs_at(hay, needle, from) {
        Some(from)
    } else {
        first_occurrence(hay, needle, from + 1)
    }
}

/// The span of the abbreviation `word` found in `token`, which starts at
/// `start`: the range of the first occurrence of the word in the token, or,
/// where the word does not stand in the token as it is, the range of the
/// whole token.
pub open spec fn span_of(token: Seq<char>, word: Seq<char>, start: int) -> SpanView {
    match first_occurrence(token, word, 0) {
        Some(offset) => SpanView {
            start: start + offset,
            end: start + offset + word.len(),
            abbreviation: word,
            exact: true,
        },
        None => SpanView { start, end: start + token.len(), abbreviation: word, exact: false },
    }
}

/// The spans of the first `n` tokens. Token `k` starts where the tokens
/// before it end, each with one separator after it; it yields a span where
/// `abbreviations` holds a word for it and the range is not empty.
pub open spec fn spans_of(
    tokens: Seq<Seq<char>>,
    abbreviations: Seq<Option<Seq<char>>>,
    n: int,
) -> Seq<SpanView>
    decreases n,
{
    if n <= 0 {
        Seq::empty()
    } else {
        let before = spans_of(tokens, abbreviations, n - 1);
        match abbreviations[n - 1] {
            Some(word) => {
                let span = span_of(tokens[n - 1], word, piece_start(tokens, n - 1));
                if span.start < span.end {
                    before.push(span)
                } else {
                    before
                }
            },
            None => before,
        }
    }
}

/// The words of a list in which some places are empty.
pub open spec fn option_views(v: Seq<Option<String>>) -> Seq<Option<Seq<char>>> {
    Seq::new(
        v.len(),
        |i: int|
            match v[i] {
                Some(word) => Some(word@),
                None => None,
            },
    )
}

/// A first occurrence is an occurrence, and none comes before it.
pub proof fn lemma_first_occurrence(hay: Seq<char>, needle: Seq<char>, from: int)
    requires
        0 <= from,
    ensures
        match first_occurrence(hay, needle, from) {
            Some(k) => from <= k && occurs_at(hay, needle, k) && forall|j: int|
                from <= j < k ==> !occurs_at(hay, needle, j),
            None => forall|j: int| from <= j ==> !occurs_at(hay, needle, j),
        },
    decreases hay.len() + 1 - from,
{
    if from + needle.len() <= hay.len() && !occurs_at(hay, needle, from) {
        lemma_first_occurrence(hay, needle, from + 1);
    }
}

/// Where the first `n` tokens end: after the last of them, without the
/// separator that would follow it.
pub open spec fn extent(tokens: Seq<Seq<char>>, n: int) -> int {
    if n <= 0 {
        0
    } else {
        piece_start(tokens, n) - 1
    }
}

/// Every span of the first `n` tokens lies in the range of one of them: it
/// is the span of a token `k` for which a word is given, and it lies between
/// the start and the end of that token.
pub open spec fn span_from_token(
    tokens: Seq<Seq<char>>,
    abbreviations: Seq<Option<Seq<char>>>,
    span: SpanView,
    k: int,
) -> bool {
    &&& 0 <= k < tokens.len()
    &&& k < abbreviations.len()
    &&& abbreviations[k] matches Some(word)
    &&& span == span_of(tokens[k], word, piece_start(tokens, k))
    &&& piece_start(tokens, k) <= span.start < span.end <= piece_start(tokens, k) + tokens[k].len()
}

/// Whether `span` is the span of one of the first `n` tokens.
pub open spec fn has_source(
    tokens: Seq<Seq<char>>,
    abbreviations: Seq<Option<Seq<char>>>,
    span: SpanView,
    n: int,
) -> bool {
    exists|k: int| k < n && span_from_token(tokens, abbreviations, span, k)
}

/// The start of a token is never negative, and tokens start in order.
pub proof fn lemma_piece_start_monotone(tokens: Seq<Seq<char>>, a: int, b: int)
    requires
        0 <= a <= b,
    ensures
        0 <= piece_start(tokens, a) <= piece_start(tokens, b),
        a < b ==> piece_start(tokens, a) + tokens[a].len() < piece_start(tokens, b),
    decreases b,
{
    if a < b {
        lemma_piece_start_monotone(tokens, a, b - 1);
    } else if a > 0 {
        lemma_piece_start_monotone(tokens, a - 1, a - 1);
    }
}

/// The spans of a text never overlap, come in the order of the text, and
/// each lies within the token that it was found in.
pub proof fn lemma_spans_ordered(
    tokens: Seq<Seq<char>>,
    abbreviations: Seq<Option<Seq<char>>>,
    n: int,
)
    requires
        0 <= n <= tokens.len(),
        n <= abbreviations.len(),
    ensures
        ordered(spans_of(tokens, abbreviations, n)),
        within(spans_of(tokens, abbreviations, n), extent(tokens, n)),
        forall|i: int|
            0 <= i < spans_of(tokens, abbreviations, n).len() ==> has_source(
                tokens,
                abbreviations,
                #[trigger] spans_of(tokens, abbreviations, n)[i],
                n,
            ),
    decreases n,
{
    if n > 0 {
        let before = spans_of(tokens, abbreviations, n - 1);
        let all = spans_of(tokens, abbreviations, n);
        lemma_spans_ordered(tokens, abbreviations, n - 1);
        lemma_piece_start_monotone(tokens, n - 1, n - 1);
        let start = piece_start(tokens, n - 1);
        assert(extent(tokens, n - 1) <= start);
        assert(extent(tokens, n) == start + tokens[n - 1].len());
        assert forall|i: int| 0 <= i < all.len() implies has_source(
            tokens,
            abbreviations,
            #[trigger] all[i],
            n,
        ) by {
            if i < before.len() {
                assert(has_source(tokens, abbreviations, before[i], n - 1));
                let k = choose|k: int|
                    k < n - 1 && span_from_token(tokens, abbreviations, before[i], k);
                assert(span_from_token(tokens, abbreviations, all[i], k));
            } else {
                let word = abbreviations[n - 1]->0;
                lemma_first_occurrence(tokens[n - 1], word, 0);
                assert(span_from_token(tokens, abbreviations, all[i], n - 1));
            }
        }
        if all.len() > before.len() {
            let word = abbreviations[n - 1]->0;
            lemma_first_occurrence(tokens[n - 1], word, 0);
            let span = all[all.len() - 1];
            assert(start <= span.start < span.end <= start + tokens[n - 1].len());
            assert forall|i: int, j: int| 0 <= i < j < all.len() implies (#[trigger] all[i]).end
                <= (#[trigger] all[j]).start by {
                if j < before.len() {
                    assert(before[i].end <= before[j].start);
                } else {
                    assert(before[i].end <= extent(tokens, n - 1));
                }
            }
        }
    }
}

/// Finds the first position at which `needle` stands in `hay`.
pub fn find_chars(hay: &Vec<char>, needle: &Vec<char>) -> (found: Option<usize>)
    ensures
        match found {
            Some(k) => first_occurrence(hay@, needle@, 0) == Some(k as int),
            None => first_occurrence(hay@, needle@, 0) is None,
        },
{
    if needle.len() > hay.len() {
        return None;
    }
    let last = hay.len() - needle.len();
    let mut from: usize = 0;
    while from <= last
        invariant
            from <= last + 1,
            last == hay.len() - needle.len(),
            needle.len() <= hay.len(),
            first_occurrence(hay@, needle@, 0) == first_occurrence(hay@, needle@, from as int),
        decreases last + 1 - from,
    {
        let mut k: usize = 0;
        while k < needle.len() && hay[from + k] == needle[k]
            invariant
                k <= needle.len(),
                from <= last,
                last == hay.len() - needle.len(),
                needle.len() <= hay.len(),
                forall|m: int| 0 <= m < k ==> hay@[from + m] == needle@[m],
            decreases needle.len() - k,
        {
            k += 1;
        }
        if k == needle.len() {
            assert(hay@.subrange(from as int, from + needle.len()) =~= needle@);
            return Some(from);
        }
        assert(!occurs_at(hay@, needle@, from as int)) by {
            if occurs_at(hay@, needle@, from as int) {
                assert(hay@.subrange(from as int, from + needle.len())[k as int] == needle@[k as int]);
            }
        }
        from += 1;
    }
    None
}

/// Turns the judgement of each token into spans.
///
/// `words` are the tokens of a text that was split at single spaces, and
/// `abbreviations` holds, for each token judged an abbreviation, its
/// normalised form. The cursor moves on by the length of each token and one
/// separator. What one list has beyond the length of the other is ignored.
pub fn convert_to_hashmap(abbreviations: &Vec<Option<String>>, words: &Vec<String>) -> (map:
    AbbreviationSpanMap)
    requires
        forall|k: int|
            0 <= k < words@.len() ==> piece_start(views(words@), k) + (#[trigger] words@[k])@.len()
                <= usize::MAX,
    ensures
        map@ == spans_of(
            views(words@),
            option_views(abbreviations@),
            if abbreviations@.len() <= words@.len() {
                abbreviations@.len() as int
            } else {
                words@.len() as int
            },
        ),
        ordered(map@),
        within(map@, extent(views(words@), words@.len() as int)),
{
    let ghost tokens = views(words@);
    let ghost given = option_views(abbreviations@);
    let n = if abbreviations.len() <= words.len() {
        abbreviations.len()
    } else {
        words.len()
    };
    let mut map = AbbreviationSpanMap { spans: Vec::new() };
    let mut start_idx: usize = 0;
    let mut k: usize = 0;
    assert(map@ =~= spans_of(tokens, given, 0));
    while k < n
        invariant
            k <= n,
            n <= words@.len(),
            n <= abbreviations@.len(),
            tokens == views(words@),
            given == option_views(abbreviations@),
            forall|m: int|
                0 <= m < words@.len() ==> piece_start(tokens, m) + (#[trigger] words@[m])@.len()
                    <= usize::MAX,
            k < n ==> start_idx == piece_start(tokens, k as int),
            map@ == spans_of(tokens, given, k as int),
        decreases n - k,
    {
        let token = chars_of(words[k].as_str());
        let ghost before = map@;
        proof {
            assert(token@ == tokens[k as int]);
            assert(start_idx + words@[k as int]@.len() <= usize::MAX);
            lemma_piece_start_monotone(tokens, k as int, k as int);
        }
        match &abbreviations[k] {
            Some(word) => {
                assert(given[k as int] == Some(word@));
                let letters = chars_of(word.as_str());
                proof {
                    lemma_first_occurrence(token@, letters@, 0);
                }
                let (start, end, exact) = match find_chars(&token, &letters) {
                    Some(offset) => (start_idx + offset, start_idx + offset + letters.len(), true),
                    None => (start_idx, start_idx + token.len(), false),
                };
                if start < end {
                    map.spans.push(
                        AbbreviationSpan { start, end, abbreviation: word.clone(), exact },
                    );
                    assert(map@ =~= before.push(span_of(token@, word@, start_idx as int)));
                } else {
                    assert(map@ =~= before);
                }
            },
            None => {
                assert(given[k as int] is None);
            },
        }
        if k + 1 < n {
            proof {
                assert(piece_start(tokens, k + 1) == piece_start(tokens, k as int) + tokens[k as int].len()
                    + 1);
                lemma_piece_start_monotone(tokens, k + 1, k + 1);
                assert(piece_start(tokens, k + 1) + words@[k + 1]@.len() <= usize::MAX);
            }
            start_idx = start_idx + token.len() + 1;
        }
        k += 1;
    }
    proof {
        lemma_spans_ordered(tokens, given, n as int);
        lemma_piece_start_monotone(tokens, n as int, words@.len() as int);
    }
    map
}

/// What stands before the alternatives in the pattern of the bigrams.
pub const BIGRAM_PREFIX: &'static str = "[^ ]*(";

/// What stands after the alternatives in the pattern of the bigrams.
pub const BIGRAM_SUFFIX: &'static str = ")[^ ]*";

/// The length below which a word outside the exclusion vocabulary is an
/// abbreviation.
pub const LONG_WORD: usize = 5;

/// The pattern that matches a word with one of the bigrams in it: the
/// bigrams as alternatives, between runs of characters other than spaces.
pub open spec fn bigram_pattern(bigrams: Seq<Seq<char>>) -> Seq<char> {
    BIGRAM_PREFIX@ + join(bigrams, '|') + BIGRAM_SUFFIX@
}

/// Whether `word` matches the pattern of the bigrams. Without bigrams
/// nothing matches.
pub open spec fn bigram_rule(bigrams: Seq<Seq<char>>, word: Seq<char>) -> bool {
    bigrams.len() > 0 && pattern_found(bigram_pattern(bigrams), word)
}

/// Whether `c` is one of the five vowels.
pub open spec fn is_vowel(c: char) -> bool {
    c == 'a' || c == 'e' || c == 'u' || c == 'o' || c == 'i'
}

/// Whether `word` holds a vowel.
pub open spec fn has_vowel(word: Seq<char>) -> bool {
    exists|i: int| 0 <= i < word.len() && is_vowel(#[trigger] word[i])
}

/// The rule for a normalised word, with `bigram` saying whether it matches
/// the pattern of the bigrams.
///
/// An abbreviation has more than one character and is not on the problematic
/// list; and it is short and outside the exclusion vocabulary, or matches a
/// bigram, or has no vowel, or is in the inclusion vocabulary. So a long
/// word of the exclusion vocabulary is still an abbreviation where one of
/// the last three holds.
pub open spec fn is_abbreviation(
    word: Seq<char>,
    exclusion: Seq<Seq<char>>,
    inclusion: Seq<Seq<char>>,
    problematic: Seq<Seq<char>>,
    bigram: bool,
) -> bool {
    &&& word.len() > 1
    &&& !problematic.contains(word)
    &&& {
        ||| (word.len() < LONG_WORD && !exclusion.contains(word))
        ||| bigram
        ||| !has_vowel(word)
        ||| inclusion.contains(word)
    }
}

/// The judgement of one token: its normalised form where that is an
/// abbreviation. An empty token is none.
pub open spec fn judged(
    token: Seq<char>,
    exclusion: Seq<Seq<char>>,
    inclusion: Seq<Seq<char>>,
    problematic: Seq<Seq<char>>,
    bigrams: Seq<Seq<char>>,
) -> Option<Seq<char>> {
    let word = normalized(token);
    if token.len() > 0 && is_abbreviation(
        word,
        exclusion,
        inclusion,
        problematic,
        bigram_rule(bigrams, word),
    ) {
        Some(word)
    } else {
        None
    }
}

/// The text with its tags blanked out, and then its punctuation and digits.
pub open spec fn scrubbed(text: Seq<char>) -> Seq<char> {
    let without_tags = blanked(text, pattern_ranges(TAG_PATTERN@, text));
    blanked(without_tags, pattern_ranges(PUNCTUATION_PATTERN@, without_tags))
}

/// Whether every pattern that a detection needs compiles.
pub open spec fn patterns_compile(bigrams: Seq<Seq<char>>) -> bool {
    &&& pattern_compiles(TAG_PATTERN@)
    &&& pattern_compiles(PUNCTUATION_PATTERN@)
    &&& bigrams.len() > 0 ==> pattern_compiles(bigram_pattern(bigrams))
}

/// The judgements of all tokens.
pub open spec fn judgements(
    tokens: Seq<Seq<char>>,
    exclusion: Seq<Seq<char>>,
    inclusion: Seq<Seq<char>>,
    problematic: Seq<Seq<char>>,
    bigrams: Seq<Seq<char>>,
) -> Seq<Option<Seq<char>>> {
    Seq::new(
        tokens.len(),
        |k: int| judged(tokens[k], exclusion, inclusion, problematic, bigrams),
    )
}

/// The abbreviations of `text` with their ranges.
pub open spec fn detected(
    text: Seq<char>,
    exclusion: Seq<Seq<char>>,
    inclusion: Seq<Seq<char>>,
    problematic: Seq<Seq<char>>,
    bigrams: Seq<Seq<char>>,
) -> Seq<SpanView> {
    let tokens = split(scrubbed(text), ' ');
    spans_of(
        tokens,
        judgements(tokens, exclusion, inclusion, problematic, bigrams),
        tokens.len() as int,
    )
}

/// Whether each span points at its abbreviation in `text`: an exact span
/// holds the abbreviation letter for letter, and any other holds a text
/// whose normalised form is the abbreviation.
pub open spec fn anchored(text: Seq<char>, spans: Seq<SpanView>) -> bool {
    forall|i: int|
        0 <= i < spans.len() ==> {
            let span = #[trigger] spans[i];
            &&& 0 <= span.start < span.end <= text.len()
            &&& span.exact ==> text.subrange(span.start, span.end) == span.abbreviation
            &&& !span.exact ==> normalized(text.subrange(span.start, span.end))
                == span.abbreviation
        }
}

/// A word of the inclusion vocabulary is an abbreviation whatever its length
/// and its vowels, unless it is a single character or on the problematic
/// list.
pub proof fn lemma_inclusion_decides(
    word: Seq<char>,
    exclusion: Seq<Seq<char>>,
    inclusion: Seq<Seq<char>>,
    problematic: Seq<Seq<char>>,
    bigram: bool,
)
    requires
        inclusion.contains(word),
        word.len() > 1,
        !problematic.contains(word),
    ensures
        is_abbreviation(word, exclusion, inclusion, problematic, bigram),
{
}

/// A word of five characters or more that matches no bigram and has a vowel
/// is no abbreviation, in the exclusion vocabulary or out of it, unless the
/// inclusion vocabulary holds it.
pub proof fn lemma_long_plain_word_is_none(
    word: Seq<char>,
    exclusion: Seq<Seq<char>>,
    inclusion: Seq<Seq<char>>,
    problematic: Seq<Seq<char>>,
    bigram: bool,
)
    requires
        word.len() >= LONG_WORD,
        !bigram,
        has_vowel(word),
        !inclusion.contains(word),
    ensures
        !is_abbreviation(word, exclusion, inclusion, problematic, bigram),
{
}

/// A word on the problematic list is never an abbreviation.
pub proof fn lemma_problematic_is_none(
    word: Seq<char>,
    exclusion: Seq<Seq<char>>,
    inclusion: Seq<Seq<char>>,
    problematic: Seq<Seq<char>>,
    bigram: bool,
)
    requires
        problematic.contains(word),
    ensures
        !is_abbreviation(word, exclusion, inclusion, problematic, bigram),
{
}

/// Blanking changes no length, and what it leaves other than spaces is where
/// it was.
pub proof fn lemma_scrubbed(text: Seq<char>)
    ensures
        scrubbed(text).len() == text.len(),
        forall|i: int|
            0 <= i < text.len() && #[trigger] scrubbed(text)[i] != ' ' ==> scrubbed(text)[i]
                == text[i],
{
}

/// The spans that a detection returns never overlap, lie within the text in
/// the order of the text, and point at their abbreviations.
pub proof fn lemma_detected_anchored(
    text: Seq<char>,
    exclusion: Seq<Seq<char>>,
    inclusion: Seq<Seq<char>>,
    problematic: Seq<Seq<char>>,
    bigrams: Seq<Seq<char>>,
)
    ensures
        ordered(detected(text, exclusion, inclusion, problematic, bigrams)),
        within(detected(text, exclusion, inclusion, problematic, bigrams), text.len() as int),
        anchored(text, detected(text, exclusion, inclusion, problematic, bigrams)),
{
    let clean = scrubbed(text);
    let tokens = split(clean, ' ');
    let given = judgements(tokens, exclusion, inclusion, problematic, bigrams);
    let spans = detected(text, exclusion, inclusion, problematic, bigrams);
    lemma_scrubbed(text);
    lemma_split(clean, ' ');
    lemma_spans_ordered(tokens, given, tokens.len() as int);
    assert(extent(tokens, tokens.len() as int) == text.len());
    assert forall|i: int| 0 <= i < spans.len() implies {
        let span = #[trigger] spans[i];
        &&& 0 <= span.start < span.end <= text.len()
        &&& span.exact ==> text.subrange(span.start, span.end) == span.abbreviation
        &&& !span.exact ==> normalized(text.subrange(span.start, span.end)) == span.abbreviation
    } by {
        let span = spans[i];
        assert(has_source(tokens, given, span, tokens.len() as int));
        let k = choose|k: int|
            k < tokens.len() && span_from_token(tokens, given, span, k);
        let token = tokens[k];
        let word = given[k]->0;
        let start = piece_start(tokens, k);
        assert(word == normalized(token));
        assert(clean.subrange(start, start + token.len()) == token);
        assert(text.subrange(start, start + token.len()) =~= token) by {
            assert forall|m: int| 0 <= m < token.len() implies text[start + m] == token[m] by {
                assert(clean.subrange(start, start + token.len())[m] == clean[start + m]);
                assert(tokens[k][m] != ' ');
            }
        }
        lemma_first_occurrence(token, word, 0);
        if span.exact {
            let offset = first_occurrence(token, word, 0)->0;
            assert(text.subrange(span.start, span.end) =~= token.subrange(
                offset,
                offset + word.len(),
            ));
        }
    }
}

/// Whether `word` holds a vowel.
pub fn holds_vowel(word: &Vec<char>) -> (found: bool)
    ensures
        found == has_vowel(word@),
{
    let mut i: usize = 0;
    while i < word.len()
        invariant
            i <= word.len(),
            forall|k: int| 0 <= k < i ==> !is_vowel(#[trigger] word@[k]),
        decreases word.len() - i,
    {
        let c = word[i];
        if c == 'a' || c == 'e' || c == 'u' || c == 'o' || c == 'i' {
            assert(is_vowel(word@[i as int]));
            return true;
        }
        i += 1;
    }
    false
}

/// Applies the rule to a normalised word, given whether it matches the
/// pattern of the bigrams.
pub fn is_abbreviation_word(
    word: &str,
    exclusion: &Vec<String>,
    inclusion: &Vec<String>,
    problematic: &Vec<String>,
    bigram: bool,
) -> (verdict: bool)
    ensures
        verdict == is_abbreviation(
            word@,
            views(exclusion@),
            views(inclusion@),
            views(problematic@),
            bigram,
        ),
{
    let letters = chars_of(word);
    if letters.len() <= 1 {
        return false;
    }
    if contains_word(problematic, word) {
        return false;
    }
    (letters.len() < LONG_WORD && !contains_word(exclusion, word)) || bigram || !holds_vowel(
        &letters,
    ) || contains_word(inclusion, word)
}

/// Builds the pattern of the bigrams.
pub fn build_bigram_pattern(bigrams: &Vec<String>) -> (pattern: String)
    ensures
        pattern@ == bigram_pattern(views(bigrams@)),
{
    let mut out = chars_of(BIGRAM_PREFIX);
    let alternatives = join_strings(bigrams, '|');
    push_all(&mut out, &alternatives);
    let suffix = chars_of(BIGRAM_SUFFIX);
    push_all(&mut out, &suffix);
    string_of(&out)
}

/// Judges one token. The pattern of the bigrams is only matched where the
/// other tests leave the verdict open.
fn judge_token(
    token: &str,
    exclusion: &Vec<String>,
    inclusion: &Vec<String>,
    problematic: &Vec<String>,
    bigrams: &Vec<String>,
    pattern: &str,
) -> (r: Result<Option<String>, SetupFailure>)
    requires
        pattern@ == bigram_pattern(views(bigrams@)),
        bigrams@.len() > 0 ==> pattern_compiles(pattern@),
    ensures
        r matches Ok(verdict) && match verdict {
            Some(word) => judged(
                token@,
                views(exclusion@),
                views(inclusion@),
                views(problematic@),
                views(bigrams@),
            ) == Some(word@),
            None => judged(
                token@,
                views(exclusion@),
                views(inclusion@),
                views(problematic@),
                views(bigrams@),
            ) is None,
        },
{
    if token.unicode_len() == 0 {
        return Ok(None);
    }
    let word = normalize(token);
    if is_abbreviation_word(word.as_str(), exclusion, inclusion, problematic, false) {
        return Ok(Some(word));
    }
    if bigrams.len() == 0 {
        return Ok(None);
    }
    let bigram = matches_pattern(pattern, word.as_str())?;
    if is_abbreviation_word(word.as_str(), exclusion, inclusion, problematic, bigram) {
        Ok(Some(word))
    } else {
        Ok(None)
    }
}

/// Judges every token of a scrubbed text.
pub fn judge_tokens(
    tokens: &Vec<String>,
    exclusion: &Vec<String>,
    inclusion: &Vec<String>,
    problematic: &Vec<String>,
    bigrams: &Vec<String>,
) -> (r: Result<Vec<Option<String>>, SetupFailure>)
    ensures
        r is Ok <==> (bigrams@.len() > 0 ==> pattern_compiles(bigram_pattern(views(bigrams@)))),
        r matches Ok(verdicts) ==> option_views(verdicts@) == judgements(
            views(tokens@),
            views(exclusion@),
            views(inclusion@),
            views(problematic@),
            views(bigrams@),
        ),
        r is Err ==> r == Err::<Vec<Option<String>>, SetupFailure>(SetupFailure::RejectedPattern),
{
    let pattern = build_bigram_pattern(bigrams);
    if bigrams.len() > 0 {
        match check_pattern(pattern.as_str()) {
            Ok(_) => {},
            Err(e) => {
                return Err(e);
            },
        }
    }
    let ghost expected = judgements(
        views(tokens@),
        views(exclusion@),
        views(inclusion@),
        views(problematic@),
        views(bigrams@),
    );
    let mut verdicts: Vec<Option<String>> = Vec::new();
    let mut k: usize = 0;
    while k < tokens.len()
        invariant
            k <= tokens.len(),
            pattern@ == bigram_pattern(views(bigrams@)),
            bigrams@.len() > 0 ==> pattern_compiles(pattern@),
            expected == judgements(
                views(tokens@),
                views(exclusion@),
                views(inclusion@),
                views(problematic@),
                views(bigrams@),
            ),
            option_views(verdicts@) == expected.take(k as int),
        decreases tokens.len() - k,
    {
        let ghost before = option_views(verdicts@);
        let verdict = judge_token(
            tokens[k].as_str(),
            exclusion,
            inclusion,
            problematic,
            bigrams,
            pattern.as_str(),
        )?;
        verdicts.push(verdict);
        assert(option_views(verdicts@) =~= before.push(expected[k as int]));
        assert(expected.take(k + 1) =~= expected.take(k as int).push(expected[k as int]));
        k += 1;
    }
    assert(expected.take(tokens.len() as int) =~= expected);
    Ok(verdicts)
}

/// Finds the abbreviations of `text`.
///
/// `excl_dict` holds full words that are no abbreviations while short,
/// `add_dict` known abbreviations, `problematic` the words that are never
/// abbreviations, and `bigrams` the fragments of which any one marks a word
/// as an abbreviation. Positions count characters of `text`.
///
/// Fails only where a pattern is refused, which of the three fixed parts can
/// only be that of the bigrams.
pub fn detect_acronyms(
    text: String,
    excl_dict: &Vec<String>,
    add_dict: &Vec<String>,
    problematic: &Vec<String>,
    bigrams: &Vec<String>,
) -> (result: Result<AbbreviationSpanMap, SetupFailure>)
    ensures
        result is Ok <==> patterns_compile(views(bigrams@)),
        result matches Ok(map) ==> {
            &&& map@ == detected(
                text@,
                views(excl_dict@),
                views(add_dict@),
                views(problematic@),
                views(bigrams@),
            )
            &&& ordered(map@)
            &&& within(map@, text@.len() as int)
            &&& anchored(text@, map@)
        },
        result is Err ==> result == Err::<AbbreviationSpanMap, SetupFailure>(
            SetupFailure::RejectedPattern,
        ),
{
    let without_tags = match replace_with_space(text.as_str(), TAG_PATTERN) {
        Ok(found) => found.1,
        Err(e) => {
            return Err(e);
        },
    };
    let clean = match replace_with_space(without_tags.as_str(), PUNCTUATION_PATTERN) {
        Ok(found) => found.1,
        Err(e) => {
            return Err(e);
        },
    };
    assert(clean@ == scrubbed(text@));
    let letters = chars_of(clean.as_str());
    let pieces = split_chars(&letters, ' ');
    let words = strings_of(&pieces);
    assert(views(words@) == split(scrubbed(text@), ' '));
    let verdicts = match judge_tokens(&words, excl_dict, add_dict, problematic, bigrams) {
        Ok(verdicts) => verdicts,
        Err(e) => {
            return Err(e);
        },
    };
    let length = letters.len();
    proof {
        let tokens = split(clean@, ' ');
        lemma_split(clean@, ' ');
        lemma_scrubbed(text@);
        lemma_detected_anchored(
            text@,
            views(excl_dict@),
            views(add_dict@),
            views(problematic@),
            views(bigrams@),
        );
        assert(tokens == views(words@));
        assert forall|k: int| 0 <= k < words@.len() implies piece_start(views(words@), k) + (
        #[trigger] words@[k])@.len() <= usize::MAX by {
            assert(tokens[k] == words@[k]@);
            assert(piece_start(tokens, k) + tokens[k].len() <= length);
        }
    }
    let map = convert_to_hashmap(&verdicts, &words);
    proof {
        assert(option_views(verdicts@).len() == verdicts@.len());
        assert(verdicts@.len() == words@.len());
        assert(map@ == detected(
            text@,
            views(excl_dict@),
            views(add_dict@),
            views(problematic@),
            views(bigrams@),
        ));
    }
    Ok(map)
}

} // verus!
