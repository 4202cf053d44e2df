//! Transposition-aware edit distance between two strings.
//!
//! The distance counts insertions, deletions, substitutions and
//! transpositions of two characters, each at cost one. A transposition may
//! bridge characters that are deleted before it and inserted after it, so the
//! distance is the unrestricted one, not the optimal-string-alignment variant.

use std::collections::HashMap;
use vstd::prelude::*;
use crate::edits::{is_least_edit_count, lemma_distance_is_least_edit_count};
use crate::text::chars_of;

verus! {

/// The smaller of two integers.
pub open spec fn min2(a: int, b: int) -> int {
    if a <= b {
        a
    } else {
        b
    }
}

/// The smallest of four integers.
pub open spec fn min4_spec(a: int, b: int, c: int, d: int) -> int {
    min2(min2(min2(a, b), c), d)
}

/// The one-based position of the last occurrence of `c` among the first `n`
/// characters of `s`, or zero when `c` does not occur there.
pub open spec fn last_occurrence(s: Seq<char>, c: char, n: int) -> int
    decreases n,
{
    if n <= 0 {
        0
    } else if s[n - 1] == c {
        n
    } else {
        last_occurrence(s, c, n - 1)
    }
}

/// The edit distance between the first `i` characters of `s` and the first
/// `j` characters of `t`.
///
/// Besides dropping the last character of either prefix or pairing the two
/// last characters, the two last characters may be swapped into place: with
/// `k` the last position in `s` that holds the last character of the `t`
/// prefix, and `l` the last position in `t` that holds the last character of
/// the `s` prefix, the prefixes before `k` and `l` are aligned, the characters
/// between `k` and `i` are deleted, the pair is transposed, and the
/// characters between `l` and `j` are inserted.
pub open spec fn prefix_distance(s: Seq<char>, t: Seq<char>, i: int, j: int) -> int
    decreases i + j,
{
    if i <= 0 {
        if j <= 0 {
            0
        } else {
            j
        }
    } else if j <= 0 {
        i
    } else {
        let cost: int = if s[i - 1] == t[j - 1] {
            0
        } else {
            1
        };
        let k = last_occurrence(s, t[j - 1], i - 1);
        let l = last_occurrence(t, s[i - 1], j - 1);
        let step = min2(
            min2(prefix_distance(s, t, i, j - 1) + 1, prefix_distance(s, t, i - 1, j) + 1),
            prefix_distance(s, t, i - 1, j - 1) + cost,
        );
        if 0 < k < i && 0 < l < j {
            min2(step, prefix_distance(s, t, k - 1, l - 1) + (i - k - 1) + 1 + (j - l - 1))
        } else {
            step
        }
    }
}

/// The Damerau-Levenshtein distance between `s` and `t`, by the recurrence
/// over their prefixes. It is the length of the shortest edit script between
/// the two, which the module `edits` proves.
pub open spec fn edit_distance(s: Seq<char>, t: Seq<char>) -> int {
    prefix_distance(s, t, s.len() as int, t.len() as int)
}

/// Whether the distance between `s` and `t` can be computed with
/// machine-sized arithmetic.
pub open spec fn comparable(s: Seq<char>, t: Seq<char>) -> bool {
    s.len() + t.len() < usize::MAX / 2
}

/// A last occurrence lies within the searched prefix and holds the character.
pub proof fn lemma_last_occurrence(s: Seq<char>, c: char, n: int)
    ensures
        0 <= last_occurrence(s, c, n),
        n >= 0 ==> last_occurrence(s, c, n) <= n,
        last_occurrence(s, c, n) > 0 ==> s[last_occurrence(s, c, n) - 1] == c,
        forall|m: int| last_occurrence(s, c, n) <= m < n ==> s[m] != c,
    decreases n,
{
    if n > 0 && s[n - 1] != c {
        lemma_last_occurrence(s, c, n - 1);
    }
}

/// A prefix distance is never negative and never exceeds the longer prefix.
pub proof fn lemma_prefix_distance_bounds(s: Seq<char>, t: Seq<char>, i: int, j: int)
    requires
        0 <= i,
        0 <= j,
    ensures
        0 <= prefix_distance(s, t, i, j),
        prefix_distance(s, t, i, j) <= i || prefix_distance(s, t, i, j) <= j,
        prefix_distance(s, t, i, j) >= i - j,
        prefix_distance(s, t, i, j) >= j - i,
    decreases i + j,
{
    if i > 0 && j > 0 {
        let k = last_occurrence(s, t[j - 1], i - 1);
        let l = last_occurrence(t, s[i - 1], j - 1);
        lemma_prefix_distance_bounds(s, t, i, j - 1);
        lemma_prefix_distance_bounds(s, t, i - 1, j);
        lemma_prefix_distance_bounds(s, t, i - 1, j - 1);
        if 0 < k < i && 0 < l < j {
            lemma_prefix_distance_bounds(s, t, k - 1, l - 1);
        }
    }
}

/// Equal prefixes of one string are at distance zero.
pub proof fn lemma_prefix_identity(s: Seq<char>, n: int)
    requires
        0 <= n <= s.len(),
    ensures
        prefix_distance(s, s, n, n) == 0,
    decreases n,
{
    if n > 0 {
        lemma_prefix_identity(s, n - 1);
        lemma_prefix_distance_bounds(s, s, n, n);
    }
}

/// Swapping the two strings, and the two prefix lengths with them, leaves the
/// prefix distance unchanged.
pub proof fn lemma_prefix_symmetric(s: Seq<char>, t: Seq<char>, i: int, j: int)
    ensures
        prefix_distance(s, t, i, j) == prefix_distance(t, s, j, i),
    decreases i + j,
{
    if i > 0 && j > 0 {
        let k = last_occurrence(s, t[j - 1], i - 1);
        let l = last_occurrence(t, s[i - 1], j - 1);
        lemma_prefix_symmetric(s, t, i, j - 1);
        lemma_prefix_symmetric(s, t, i - 1, j);
        lemma_prefix_symmetric(s, t, i - 1, j - 1);
        if 0 < k < i && 0 < l < j {
            lemma_prefix_symmetric(s, t, k - 1, l - 1);
        }
    }
}

/// Two prefixes at distance zero are the same sequence.
pub proof fn lemma_prefix_zero(s: Seq<char>, t: Seq<char>, i: int, j: int)
    requires
        0 <= i <= s.len(),
        0 <= j <= t.len(),
        prefix_distance(s, t, i, j) == 0,
    ensures
        i == j,
        s.take(i) == t.take(j),
    decreases i + j,
{
    if i > 0 && j > 0 {
        let k = last_occurrence(s, t[j - 1], i - 1);
        let l = last_occurrence(t, s[i - 1], j - 1);
        lemma_prefix_distance_bounds(s, t, i, j - 1);
        lemma_prefix_distance_bounds(s, t, i - 1, j);
        lemma_prefix_distance_bounds(s, t, i - 1, j - 1);
        if 0 < k < i && 0 < l < j {
            lemma_prefix_distance_bounds(s, t, k - 1, l - 1);
        }
        assert(prefix_distance(s, t, i - 1, j - 1) == 0 && s[i - 1] == t[j - 1]);
        lemma_prefix_zero(s, t, i - 1, j - 1);
        assert(s.take(i) =~= s.take(i - 1).push(s[i - 1]));
        assert(t.take(j) =~= t.take(j - 1).push(t[j - 1]));
    } else {
        assert(s.take(0) =~= t.take(0));
    }
}

/// The distance from a string to itself is zero.
pub proof fn lemma_distance_identity(s: Seq<char>)
    ensures
        edit_distance(s, s) == 0,
{
    lemma_prefix_identity(s, s.len() as int);
}

/// The distance does not depend on the order of the two strings.
pub proof fn lemma_distance_symmetric(s: Seq<char>, t: Seq<char>)
    ensures
        edit_distance(s, t) == edit_distance(t, s),
{
    lemma_prefix_symmetric(s, t, s.len() as int, t.len() as int);
}

/// The distance is zero for equal strings and positive for all others.
pub proof fn lemma_distance_zero_iff_equal(s: Seq<char>, t: Seq<char>)
    ensures
        edit_distance(s, t) >= 0,
        edit_distance(s, t) == 0 <==> s == t,
{
    lemma_prefix_distance_bounds(s, t, s.len() as int, t.len() as int);
    if s == t {
        lemma_distance_identity(s);
    }
    if edit_distance(s, t) == 0 {
        lemma_prefix_zero(s, t, s.len() as int, t.len() as int);
        assert(s.take(s.len() as int) =~= s);
        assert(t.take(t.len() as int) =~= t);
    }
}

/// The distance lies between the difference of the two lengths and the
/// greater of them; against an empty string it is the other's length.
pub proof fn lemma_distance_bounds(s: Seq<char>, t: Seq<char>)
    ensures
        edit_distance(s, t) >= s.len() - t.len(),
        edit_distance(s, t) >= t.len() - s.len(),
        edit_distance(s, t) <= s.len() || edit_distance(s, t) <= t.len(),
        s.len() == 0 ==> edit_distance(s, t) == t.len(),
        t.len() == 0 ==> edit_distance(s, t) == s.len(),
{
    lemma_prefix_distance_bounds(s, t, s.len() as int, t.len() as int);
}

/// Returns the smallest of its four arguments.
pub fn min4(a: usize, b: usize, c: usize, d: usize) -> (m: usize)
    ensures
        m == min4_spec(a as int, b as int, c as int, d as int),
        m <= a && m <= b && m <= c && m <= d,
        m == a || m == b || m == c || m == d,
{
    let mut m: usize = a;
    if b < m {
        m = b;
    }
    if c < m {
        m = c;
    }
    if d < m {
        m = d;
    }
    m
}

/// What the work matrix holds at row `a` and column `b` once that cell is
/// final: the sentinel in the outermost row and column, and elsewhere the
/// distance between the prefixes of lengths `a - 1` and `b - 1`.
pub open spec fn cell_value(s: Seq<char>, t: Seq<char>, a: int, b: int) -> int {
    if a == 0 || b == 0 {
        (s.len() + t.len()) as int
    } else {
        prefix_distance(s, t, a - 1, b - 1)
    }
}

/// Whether the cell at row `a` and column `b` is final when the rows up to
/// `i` are complete and row `i + 1` is complete up to column `j`.
pub open spec fn cell_is_final(a: int, b: int, i: int, j: int) -> bool {
    a <= 1 || b <= 1 || a <= i || (a == i + 1 && b <= j)
}

/// The work matrix has its full shape, its final cells hold their values and
/// every other cell is still zero.
pub open spec fn matrix_filled(
    mat: Seq<Vec<usize>>,
    s: Seq<char>,
    t: Seq<char>,
    i: int,
    j: int,
) -> bool {
    &&& mat.len() == s.len() + 2
    &&& forall|a: int| 0 <= a < mat.len() ==> (#[trigger] mat[a])@.len() == t.len() + 2
    &&& forall|a: int, b: int|
        0 <= a < s.len() + 2 && 0 <= b < t.len() + 2 ==> #[trigger] mat[a]@[b] == (if cell_is_final(
            a,
            b,
            i,
            j,
        ) {
            cell_value(s, t, a, b)
        } else {
            0
        })
}

/// The work matrix while its border is being written: `rows` rows of the two
/// leading columns and `cols` columns of the two leading rows are set.
pub open spec fn border_filled(
    mat: Seq<Vec<usize>>,
    s: Seq<char>,
    t: Seq<char>,
    rows: int,
    cols: int,
) -> bool {
    &&& mat.len() == s.len() + 2
    &&& forall|a: int| 0 <= a < mat.len() ==> (#[trigger] mat[a])@.len() == t.len() + 2
    &&& forall|a: int, b: int|
        0 <= a < s.len() + 2 && 0 <= b < t.len() + 2 ==> #[trigger] mat[a]@[b] == (if a == 0 && b
            == 0 {
            (s.len() + t.len()) as int
        } else if b == 0 && a <= rows {
            (s.len() + t.len()) as int
        } else if b == 1 && 1 <= a <= rows {
            a - 1
        } else if a == 0 && b <= cols {
            (s.len() + t.len()) as int
        } else if a == 1 && 1 <= b <= cols {
            b - 1
        } else {
            0
        })
}

/// Distinct characters have distinct code points.
pub proof fn lemma_code_point_injective(a: char, b: char)
    ensures
        (a as u32 == b as u32) <==> a == b,
{
    assert(a as u32 as char == a);
    assert(b as u32 as char == b);
}

/// The row recorded for `c` in the table of last rows, or zero.
pub open spec fn recorded_row(rows: Map<u32, usize>, c: char) -> int {
    if rows.contains_key(c as u32) {
        rows[c as u32] as int
    } else {
        0
    }
}

/// The row recorded for `c`, or zero when none is.
fn lookup_row(rows: &HashMap<u32, usize>, c: char) -> (row: usize)
    ensures
        row == recorded_row(rows@, c),
{
    broadcast use vstd::std_specs::hash::group_hash_axioms;

    match rows.get(&(c as u32)) {
        Some(row) => *row,
        None => 0,
    }
}

/// Records `row` for `c`, leaving the rows of all other characters as they
/// were.
fn record_row(rows: &mut HashMap<u32, usize>, c: char, row: usize)
    ensures
        forall|ch: char| #[trigger]
            recorded_row(final(rows)@, ch) == (if ch == c {
                row as int
            } else {
                recorded_row(old(rows)@, ch)
            }),
{
    broadcast use vstd::std_specs::hash::group_hash_axioms;

    rows.insert(c as u32, row);
    assert forall|ch: char| #[trigger]
        recorded_row(rows@, ch) == (if ch == c {
            row as int
        } else {
            recorded_row(old(rows)@, ch)
        }) by {
        lemma_code_point_injective(ch, c);
    }
}

/// The minimum that the algorithm takes at row `i` and column `j` is the
/// distance between the two prefixes, when `reach` is the cell that the
/// transposition reads.
pub proof fn lemma_cell_step(s: Seq<char>, t: Seq<char>, i: int, j: int, last: int, db: int)
    requires
        1 <= i <= s.len(),
        1 <= j <= t.len(),
        last == last_occurrence(s, t[j - 1], i - 1),
        db == last_occurrence(t, s[i - 1], j - 1),
    ensures
        0 <= last < i,
        0 <= db < j,
        0 <= prefix_distance(s, t, i, j - 1) <= s.len() + t.len(),
        0 <= prefix_distance(s, t, i - 1, j) <= s.len() + t.len(),
        0 <= prefix_distance(s, t, i - 1, j - 1) < s.len() + t.len(),
        0 <= cell_value(s, t, last, db) <= s.len() + t.len(),
        prefix_distance(s, t, i, j) == min4_spec(
            prefix_distance(s, t, i, j - 1) + 1,
            prefix_distance(s, t, i - 1, j) + 1,
            prefix_distance(s, t, i - 1, j - 1) + (if s[i - 1] == t[j - 1] {
                0int
            } else {
                1int
            }),
            cell_value(s, t, last, db) + (i - last - 1) + 1 + (j - db - 1),
        ),
{
    lemma_last_occurrence(s, t[j - 1], i - 1);
    lemma_last_occurrence(t, s[i - 1], j - 1);
    lemma_prefix_distance_bounds(s, t, i, j - 1);
    lemma_prefix_distance_bounds(s, t, i - 1, j);
    lemma_prefix_distance_bounds(s, t, i - 1, j - 1);
    if last > 0 && db > 0 {
        lemma_prefix_distance_bounds(s, t, last - 1, db - 1);
    }
}

/// Computes the Damerau-Levenshtein distance between two character
/// sequences.
///
/// The matrix has one sentinel row and column in front of the usual border;
/// a transposition that has no earlier occurrence to reach back to reads the
/// sentinel and so never wins the minimum. After a step that did not match,
/// the bottom-right cell is compared with `breakpoint`; the cell is nonzero
/// only once it is final, so the value returned is the distance in any case.
pub fn char_distance(s: &Vec<char>, t: &Vec<char>, breakpoint: usize) -> (d: usize)
    requires
        comparable(s@, t@),
    ensures
        d == edit_distance(s@, t@),
        is_least_edit_count(s@, t@, d as int),
{
    let len_s = s.len();
    let len_t = t.len();
    let max_distance = len_t + len_s;

    let mut mat: Vec<Vec<usize>> = vec![vec![0usize; len_t + 2]; len_s + 2];
    mat[0][0] = max_distance;
    assert(border_filled(mat@, s@, t@, 0, 0));
    let mut r: usize = 0;
    while r < len_s + 1
        invariant
            len_s == s@.len(),
            len_t == t@.len(),
            max_distance == len_s + len_t,
            comparable(s@, t@),
            r <= len_s + 1,
            border_filled(mat@, s@, t@, r as int, 0),
        decreases len_s + 1 - r,
    {
        mat[r + 1][0] = max_distance;
        mat[r + 1][1] = r;
        r += 1;
    }
    let mut c: usize = 0;
    while c < len_t + 1
        invariant
            len_s == s@.len(),
            len_t == t@.len(),
            max_distance == len_s + len_t,
            comparable(s@, t@),
            c <= len_t + 1,
            border_filled(mat@, s@, t@, len_s + 1, c as int),
        decreases len_t + 1 - c,
    {
        mat[0][c + 1] = max_distance;
        mat[1][c + 1] = c;
        c += 1;
    }
    assert(matrix_filled(mat@, s@, t@, 1, 1));

    let mut char_map: HashMap<u32, usize> = HashMap::new();
    assert forall|ch: char| #[trigger] recorded_row(char_map@, ch) == last_occurrence(s@, ch, 0) by {
        broadcast use vstd::std_specs::hash::group_hash_axioms;

    }
    let mut i: usize = 1;
    while i <= len_s
        invariant
            len_s == s@.len(),
            len_t == t@.len(),
            max_distance == len_s + len_t,
            comparable(s@, t@),
            1 <= i <= len_s + 1,
            matrix_filled(mat@, s@, t@, i as int, 1),
            forall|ch: char| #[trigger]
                recorded_row(char_map@, ch) == last_occurrence(s@, ch, i - 1),
        decreases len_s + 1 - i,
    {
        let s_char = s[i - 1];
        let mut db: usize = 0;
        let mut j: usize = 1;
        while j <= len_t
            invariant
                len_s == s@.len(),
                len_t == t@.len(),
                max_distance == len_s + len_t,
                comparable(s@, t@),
                1 <= i <= len_s,
                1 <= j <= len_t + 1,
                s_char == s@[i - 1],
                db == last_occurrence(t@, s_char, j - 1),
                matrix_filled(mat@, s@, t@, i as int, j as int),
                forall|ch: char| #[trigger]
                    recorded_row(char_map@, ch) == last_occurrence(s@, ch, i - 1),
            decreases len_t + 1 - j,
        {
            let t_char = t[j - 1];
            let last = lookup_row(&char_map, t_char);
            let cost: usize = if s_char == t_char {
                0
            } else {
                1
            };
            proof {
                assert(last == recorded_row(char_map@, t_char));
                lemma_cell_step(s@, t@, i as int, j as int, last as int, db as int);
            }
            let deletion = mat[i + 1][j];
            let insertion = mat[i][j + 1];
            let substitution = mat[i][j];
            let reach = mat[last][db];
            assert(deletion == prefix_distance(s@, t@, i as int, j - 1));
            assert(insertion == prefix_distance(s@, t@, i - 1, j as int));
            assert(substitution == prefix_distance(s@, t@, i - 1, j - 1));
            assert(reach == cell_value(s@, t@, last as int, db as int));
            let v = min4(
                deletion + 1,
                insertion + 1,
                substitution + cost,
                reach + (i - last - 1) + 1 + (j - db - 1),
            );
            assert(v == prefix_distance(s@, t@, i as int, j as int));
            let ghost before = mat@;
            mat[i + 1][j + 1] = v;
            assert(matrix_filled(mat@, s@, t@, i as int, j + 1)) by {
                assert(mat@ == before.update(i + 1, mat@[i + 1]));
                assert(mat@[i + 1]@ == before[i + 1]@.update(j + 1, v));
            }
            if cost == 0 {
                db = j;
            } else if mat[len_s + 1][len_t + 1] > breakpoint {
                proof {
                    lemma_distance_is_least_edit_count(s@, t@);
                }
                return mat[len_s + 1][len_t + 1];
            }
            j += 1;
        }
        record_row(&mut char_map, s_char, i);
        i += 1;
    }
    proof {
        assert(mat@[len_s + 1]@[len_t + 1] == cell_value(s@, t@, len_s + 1, len_t + 1));
        lemma_distance_is_least_edit_count(s@, t@);
    }
    mat[len_s + 1][len_t + 1]
}

/// Computes the Damerau-Levenshtein distance between `s` and `t`: the least
/// number of insertions, deletions, substitutions and swaps of neighbouring
/// characters that turn `s` into `t`. The result is exact whatever
/// `breakpoint` is; callers compare it with their budget.
pub fn damerau_levenshtein(s: &str, t: &str, breakpoint: usize) -> (d: usize)
    requires
        comparable(s@, t@),
    ensures
        d == edit_distance(s@, t@),
        is_least_edit_count(s@, t@, d as int),
        d <= breakpoint <==> edit_distance(s@, t@) <= breakpoint,
        d == 0 <==> s@ == t@,
{
    let s_chars = chars_of(s);
    let t_chars = chars_of(t);
    proof {
        lemma_distance_zero_iff_equal(s@, t@);
        lemma_distance_is_least_edit_count(s@, t@);
    }
    char_distance(&s_chars, &t_chars, breakpoint)
}

} // verus!
