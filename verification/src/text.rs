//! Strings as sequences of characters: conversion, normalisation, splitting
//! on spaces and joining.

use vstd::prelude::*;

verus! {

/// The characters of each string of `v`.
pub open spec fn views(v: Seq<String>) -> Seq<Seq<char>> {
    Seq::new(v.len(), |i: int| v[i]@)
}

/// The characters of each row of `v`.
pub open spec fn rows(v: Seq<Vec<char>>) -> Seq<Seq<char>> {
    Seq::new(v.len(), |i: int| v[i]@)
}

/// The lowercase form of a string, as `str::to_lowercase` gives it.
pub uninterp spec fn lowercase_of(s: Seq<char>) -> Seq<char>;

/// A string without its leading and trailing whitespace, as `str::trim`
/// gives it.
pub uninterp spec fn trimmed_of(s: Seq<char>) -> Seq<char>;

/// The form in which a token is looked up: lowercased, then trimmed.
pub open spec fn normalized(s: Seq<char>) -> Seq<char> {
    trimmed_of(lowercase_of(s))
}

/// Calls `str::to_lowercase`. The result is a function of the characters of
/// `s` alone; which function is left to the standard library.
#[verifier::external_body]
pub(crate) fn to_lowercase(s: &str) -> (r: String)
    ensures
        r@ == lowercase_of(s@),
{
    s.to_lowercase()
}

/// Calls `str::trim` and copies the slice it returns. The result is a
/// function of the characters of `s` alone; which function is left to the
/// standard library.
#[verifier::external_body]
pub(crate) fn trim(s: &str) -> (r: String)
    ensures
        r@ == trimmed_of(s@),
{
    s.trim().to_string()
}

/// Calls `String::push`, which appends the character to the end of the
/// string.
#[verifier::external_body]
pub(crate) fn push_char(s: &mut String, c: char)
    ensures
        final(s)@ == old(s)@.push(c),
{
    s.push(c)
}

/// The characters of `s`, in order.
pub fn chars_of(s: &str) -> (v: Vec<char>)
    ensures
        v@ == s@,
{
    let mut v: Vec<char> = Vec::new();
    for c in it: s.chars()
        invariant
            it.seq() == s@,
            v@ == it.seq().take(it.index()),
    {
        v.push(c);
    }
    v
}

/// The string that holds the characters of `v`.
pub fn string_of(v: &Vec<char>) -> (r: String)
    ensures
        r@ == v@,
{
    let mut r = String::new();
    let mut i: usize = 0;
    while i < v.len()
        invariant
            i <= v.len(),
            r@ == v@.take(i as int),
        decreases v.len() - i,
    {
        push_char(&mut r, v[i]);
        assert(v@.take(i + 1) =~= v@.take(i as int).push(v@[i as int]));
        i += 1;
    }
    assert(v@.take(v.len() as int) =~= v@);
    r
}

/// Lowercases `s` and trims the result.
pub fn normalize(s: &str) -> (r: String)
    ensures
        r@ == normalized(s@),
{
    let lowered = to_lowercase(s);
    trim(lowered.as_str())
}

/// The pieces of `text` between occurrences of `sep`, in order. A separator
/// at either end, or two in a row, give an empty piece; a text without
/// separators is its own single piece.
pub open spec fn split(text: Seq<char>, sep: char) -> Seq<Seq<char>>
    decreases text.len(),
{
    if text.len() == 0 {
        seq![Seq::<char>::empty()]
    } else {
        let before = split(text.drop_last(), sep);
        if text.last() == sep {
            before.push(Seq::<char>::empty())
        } else {
            before.drop_last().push(before.last().push(text.last()))
        }
    }
}

/// The pieces put together again, with `sep` between each two.
pub open spec fn join(pieces: Seq<Seq<char>>, sep: char) -> Seq<char>
    decreases pieces.len(),
{
    if pieces.len() == 0 {
        Seq::<char>::empty()
    } else if pieces.len() == 1 {
        pieces[0]
    } else {
        join(pieces.drop_last(), sep).push(sep) + pieces.last()
    }
}

/// Where piece `k` starts in the text that the pieces were split from: each
/// earlier piece takes its own length and one separator.
pub open spec fn piece_start(pieces: Seq<Seq<char>>, k: int) -> int
    decreases k,
{
    if k <= 0 {
        0
    } else {
        piece_start(pieces, k - 1) + pieces[k - 1].len() + 1
    }
}

/// A text splits into at least one piece, no piece holds the separator, and
/// each piece is the part of the text at its start; the last piece ends
/// where the text ends.
pub proof fn lemma_split(text: Seq<char>, sep: char)
    ensures
        split(text, sep).len() >= 1,
        forall|k: int, m: int|
            0 <= k < split(text, sep).len() && 0 <= m < split(text, sep)[k].len()
                ==> #[trigger] split(text, sep)[k][m] != sep,
        forall|k: int|
            0 <= k < split(text, sep).len() ==> {
                &&& 0 <= #[trigger] piece_start(split(text, sep), k)
                &&& piece_start(split(text, sep), k) + split(text, sep)[k].len() <= text.len()
                &&& text.subrange(
                    piece_start(split(text, sep), k),
                    piece_start(split(text, sep), k) + split(text, sep)[k].len(),
                ) == split(text, sep)[k]
            },
        piece_start(split(text, sep), split(text, sep).len() as int) == text.len() + 1,
    decreases text.len(),
{
    let pieces = split(text, sep);
    if text.len() == 0 {
        assert(piece_start(pieces, 1) == piece_start(pieces, 0) + pieces[0].len() + 1);
        assert(text.subrange(0, 0) =~= pieces[0]);
    } else {
        let shorter = text.drop_last();
        let before = split(shorter, sep);
        lemma_split(shorter, sep);
        let n = before.len() as int;
        assert forall|k: int| 0 <= k <= n - 1 implies #[trigger] piece_start(pieces, k)
            == piece_start(before, k) by {
            lemma_piece_start_agrees(pieces, before, k);
        }
        assert(piece_start(before, n) == piece_start(before, n - 1) + before[n - 1].len() + 1);
        if text.last() == sep {
            assert(piece_start(pieces, n) == piece_start(pieces, n - 1) + pieces[n - 1].len() + 1);
            assert(piece_start(pieces, n + 1) == piece_start(pieces, n) + pieces[n].len() + 1);
            assert forall|k: int| 0 <= k < pieces.len() implies {
                &&& 0 <= #[trigger] piece_start(pieces, k)
                &&& piece_start(pieces, k) + pieces[k].len() <= text.len()
                &&& text.subrange(piece_start(pieces, k), piece_start(pieces, k) + pieces[k].len())
                    == pieces[k]
            } by {
                if k < n {
                    assert(pieces[k] == before[k]);
                    assert(text.subrange(
                        piece_start(pieces, k),
                        piece_start(pieces, k) + pieces[k].len(),
                    ) =~= shorter.subrange(
                        piece_start(before, k),
                        piece_start(before, k) + before[k].len(),
                    ));
                } else {
                    assert(text.subrange(
                        piece_start(pieces, k),
                        piece_start(pieces, k) + pieces[k].len(),
                    ) =~= pieces[k]);
                }
            }
        } else {
            assert(piece_start(pieces, n) == piece_start(pieces, n - 1) + pieces[n - 1].len() + 1);
            assert forall|k: int| 0 <= k < pieces.len() implies {
                &&& 0 <= #[trigger] piece_start(pieces, k)
                &&& piece_start(pieces, k) + pieces[k].len() <= text.len()
                &&& text.subrange(piece_start(pieces, k), piece_start(pieces, k) + pieces[k].len())
                    == pieces[k]
            } by {
                if k < n - 1 {
                    assert(pieces[k] == before[k]);
                    assert(text.subrange(
                        piece_start(pieces, k),
                        piece_start(pieces, k) + pieces[k].len(),
                    ) =~= shorter.subrange(
                        piece_start(before, k),
                        piece_start(before, k) + before[k].len(),
                    ));
                } else {
                    assert(pieces[k] == before[k].push(text.last()));
                    assert(shorter.subrange(
                        piece_start(before, k),
                        piece_start(before, k) + before[k].len(),
                    ) == before[k]);
                    assert(text.subrange(
                        piece_start(pieces, k),
                        piece_start(pieces, k) + pieces[k].len(),
                    ) =~= shorter.subrange(
                        piece_start(before, k),
                        piece_start(before, k) + before[k].len(),
                    ).push(text.last()));
                }
            }
        }
    }
}

/// The start of piece `k` depends on the pieces before it only.
pub proof fn lemma_piece_start_agrees(a: Seq<Seq<char>>, b: Seq<Seq<char>>, k: int)
    requires
        k <= a.len(),
        k <= b.len(),
        forall|m: int| 0 <= m < k ==> a[m].len() == b[m].len(),
    ensures
        piece_start(a, k) == piece_start(b, k),
    decreases k,
{
    if k > 0 {
        lemma_piece_start_agrees(a, b, k - 1);
    }
}

/// One more character at the end of the last piece is one more at the end
/// of the joined text.
pub proof fn lemma_join_grows(pieces: Seq<Seq<char>>, last: Seq<char>, c: char, sep: char)
    ensures
        join(pieces.push(last.push(c)), sep) == join(pieces.push(last), sep).push(c),
{
    let longer = pieces.push(last.push(c));
    let shorter = pieces.push(last);
    assert(longer.drop_last() =~= pieces);
    assert(shorter.drop_last() =~= pieces);
    if pieces.len() > 0 {
        assert(join(pieces, sep).push(sep) + last.push(c) =~= (join(pieces, sep).push(sep)
            + last).push(c));
    }
}

/// Joining the pieces of a text gives the text back.
pub proof fn lemma_join_split(text: Seq<char>, sep: char)
    ensures
        join(split(text, sep), sep) == text,
    decreases text.len(),
{
    if text.len() == 0 {
        assert(split(text, sep)[0] =~= text);
    } else {
        let before = split(text.drop_last(), sep);
        lemma_join_split(text.drop_last(), sep);
        lemma_split(text.drop_last(), sep);
        if text.last() == sep {
            let pieces = before.push(Seq::<char>::empty());
            assert(pieces.drop_last() =~= before);
            assert(join(before, sep).push(sep) + Seq::<char>::empty() =~= text);
        } else {
            assert(before =~= before.drop_last().push(before.last()));
            lemma_join_grows(before.drop_last(), before.last(), text.last(), sep);
            assert(text.drop_last().push(text.last()) =~= text);
        }
    }
}

/// Splitting a joined text gives the pieces back, where there is at least
/// one piece and none holds the separator.
pub proof fn lemma_split_join(pieces: Seq<Seq<char>>, sep: char)
    requires
        pieces.len() >= 1,
        forall|k: int, m: int|
            0 <= k < pieces.len() && 0 <= m < pieces[k].len() ==> #[trigger] pieces[k][m] != sep,
    ensures
        split(join(pieces, sep), sep) == pieces,
    decreases join(pieces, sep).len(),
{
    let text = join(pieces, sep);
    let last = pieces.last();
    let others = pieces.drop_last();
    assert(pieces =~= others.push(last));
    if last.len() == 0 {
        if pieces.len() == 1 {
            assert(text =~= Seq::<char>::empty());
            assert(split(text, sep) =~= pieces);
        } else {
            assert(text =~= join(others, sep).push(sep));
            assert(text.drop_last() =~= join(others, sep));
            assert forall|k: int, m: int|
                0 <= k < others.len() && 0 <= m < others[k].len() implies #[trigger] others[k][m]
                != sep by {
                assert(others[k] == pieces[k]);
            }
            lemma_split_join(others, sep);
            assert(last =~= Seq::<char>::empty());
        }
    } else {
        let c = last.last();
        let shorter = others.push(last.drop_last());
        assert(last =~= last.drop_last().push(c));
        lemma_join_grows(others, last.drop_last(), c, sep);
        assert(text == join(shorter, sep).push(c));
        assert(text.drop_last() =~= join(shorter, sep));
        assert(pieces[pieces.len() - 1][last.len() - 1] != sep);
        assert forall|k: int, m: int|
            0 <= k < shorter.len() && 0 <= m < shorter[k].len() implies #[trigger] shorter[k][m]
            != sep by {
            if k < others.len() {
                assert(shorter[k] == pieces[k]);
            } else {
                assert(shorter[k][m] == pieces[k][m]);
            }
        }
        lemma_split_join(shorter, sep);
        assert(shorter.drop_last() =~= others);
        assert(shorter.last() == last.drop_last());
    }
}

/// Splits `text` at every occurrence of `sep`.
pub fn split_chars(text: &Vec<char>, sep: char) -> (pieces: Vec<Vec<char>>)
    ensures
        rows(pieces@) == split(text@, sep),
{
    let mut pieces: Vec<Vec<char>> = Vec::new();
    let mut current: Vec<char> = Vec::new();
    let mut i: usize = 0;
    assert(text@.take(0) =~= Seq::<char>::empty());
    assert(rows(pieces@).push(current@) =~= split(text@.take(0), sep));
    while i < text.len()
        invariant
            i <= text.len(),
            rows(pieces@).push(current@) == split(text@.take(i as int), sep),
        decreases text.len() - i,
    {
        let c = text[i];
        proof {
            assert(text@.take(i + 1).drop_last() =~= text@.take(i as int));
            assert(text@.take(i + 1).last() == c);
        }
        let ghost done = rows(pieces@);
        let ghost open = current@;
        if c == sep {
            pieces.push(current);
            current = Vec::new();
            assert(rows(pieces@) =~= done.push(open));
        } else {
            current.push(c);
            assert(done.push(open).drop_last() =~= done);
        }
        i += 1;
    }
    assert(text@.take(text.len() as int) =~= text@);
    let ghost done = rows(pieces@);
    pieces.push(current);
    assert(rows(pieces@) =~= done.push(current@));
    pieces
}

/// Whether two strings hold the same characters.
pub fn same_text(a: &str, b: &str) -> (same: bool)
    ensures
        same == (a@ == b@),
{
    let x = chars_of(a);
    let y = chars_of(b);
    if x.len() != y.len() {
        return false;
    }
    let mut i: usize = 0;
    while i < x.len()
        invariant
            i <= x.len(),
            x.len() == y.len(),
            x@ == a@,
            y@ == b@,
            forall|k: int| 0 <= k < i ==> x@[k] == y@[k],
        decreases x.len() - i,
    {
        if x[i] != y[i] {
            return false;
        }
        i += 1;
    }
    assert(x@ =~= y@);
    true
}

/// Whether `list` holds `word`.
pub fn contains_word(list: &Vec<String>, word: &str) -> (found: bool)
    ensures
        found == views(list@).contains(word@),
{
    let mut i: usize = 0;
    while i < list.len()
        invariant
            i <= list.len(),
            forall|k: int| 0 <= k < i ==> views(list@)[k] != word@,
        decreases list.len() - i,
    {
        if same_text(list[i].as_str(), word) {
            assert(views(list@)[i as int] == word@);
            return true;
        }
        i += 1;
    }
    false
}

/// The strings that hold the characters of each row.
pub fn strings_of(pieces: &Vec<Vec<char>>) -> (words: Vec<String>)
    ensures
        views(words@) == rows(pieces@),
{
    let mut words: Vec<String> = Vec::new();
    let mut i: usize = 0;
    while i < pieces.len()
        invariant
            i <= pieces.len(),
            views(words@) == rows(pieces@).take(i as int),
        decreases pieces.len() - i,
    {
        let ghost before = views(words@);
        words.push(string_of(&pieces[i]));
        assert(views(words@) =~= before.push(pieces@[i as int]@));
        assert(rows(pieces@).take(i + 1) =~= rows(pieces@).take(i as int).push(pieces@[i as int]@));
        i += 1;
    }
    assert(rows(pieces@).take(pieces.len() as int) =~= rows(pieces@));
    words
}

/// Appends the characters of `more` to `out`.
pub fn push_all(out: &mut Vec<char>, more: &Vec<char>)
    ensures
        final(out)@ == old(out)@ + more@,
{
    let ghost before = out@;
    let mut k: usize = 0;
    while k < more.len()
        invariant
            k <= more.len(),
            out@ == before + more@.take(k as int),
        decreases more.len() - k,
    {
        out.push(more[k]);
        assert(more@.take(k + 1) =~= more@.take(k as int).push(more@[k as int]));
        k += 1;
    }
    assert(more@.take(more.len() as int) =~= more@);
}

/// Joins the strings with `sep` between each two.
pub fn join_strings(pieces: &Vec<String>, sep: char) -> (out: Vec<char>)
    ensures
        out@ == join(views(pieces@), sep),
{
    let ghost all = views(pieces@);
    let mut out: Vec<char> = Vec::new();
    let mut i: usize = 0;
    assert(all.take(0) =~= Seq::<Seq<char>>::empty());
    while i < pieces.len()
        invariant
            i <= pieces.len(),
            all == views(pieces@),
            out@ == join(all.take(i as int), sep),
        decreases pieces.len() - i,
    {
        let letters = chars_of(pieces[i].as_str());
        proof {
            assert(letters@ == all[i as int]);
            assert(all.take(i + 1).drop_last() =~= all.take(i as int));
            assert(all.take(i + 1).last() == all[i as int]);
        }
        if i > 0 {
            out.push(sep);
        }
        push_all(&mut out, &letters);
        assert(out@ =~= join(all.take(i + 1), sep));
        i += 1;
    }
    assert(all.take(pieces.len() as int) =~= all);
    out
}

} // verus!
