//! Edit scripts, and the proof that the distance of this library is the
//! length of the shortest script that turns one string into the other.
//!
//! An edit inserts a character, deletes one, puts another in its place, or
//! swaps two neighbours. A script is a sequence of edits, each applied to
//! what the edits before it have made of the string.

use vstd::prelude::*;
use crate::distance::{
    edit_distance, last_occurrence, lemma_distance_bounds, lemma_distance_symmetric,
    lemma_last_occurrence, lemma_prefix_distance_bounds, min2, prefix_distance,
};

verus! {

/// One edit of a string.
pub enum Edit {
    /// Puts `letter` in front of position `at`, or at the end.
    Insert { at: int, letter: char },
    /// Removes the character at position `at`.
    Delete { at: int },
    /// Puts `letter` in place of the character at position `at`.
    Substitute { at: int, letter: char },
    /// Swaps the characters at positions `at` and `at + 1`.
    Transpose { at: int },
}

/// Whether the edit can be applied to `a`: its position lies in the string.
pub open spec fn applies(e: Edit, a: Seq<char>) -> bool {
    match e {
        Edit::Insert { at, .. } => 0 <= at <= a.len(),
        Edit::Delete { at } => 0 <= at < a.len(),
        Edit::Substitute { at, .. } => 0 <= at < a.len(),
        Edit::Transpose { at } => 0 <= at && at + 1 < a.len(),
    }
}

/// The string that the edit makes of `a`.
pub open spec fn apply(e: Edit, a: Seq<char>) -> Seq<char> {
    match e {
        Edit::Insert { at, letter } => a.take(at).push(letter) + a.skip(at),
        Edit::Delete { at } => a.take(at) + a.skip(at + 1),
        Edit::Substitute { at, letter } => a.update(at, letter),
        Edit::Transpose { at } => a.update(at, a[at + 1]).update(at + 1, a[at]),
    }
}

/// What the script makes of `a`.
pub open spec fn run(script: Seq<Edit>, a: Seq<char>) -> Seq<char>
    decreases script.len(),
{
    if script.len() == 0 {
        a
    } else {
        apply(script.last(), run(script.drop_last(), a))
    }
}

/// Whether every edit of the script can be applied in its turn.
pub open spec fn runs(script: Seq<Edit>, a: Seq<char>) -> bool
    decreases script.len(),
{
    script.len() == 0 || (runs(script.drop_last(), a) && applies(
        script.last(),
        run(script.drop_last(), a),
    ))
}

/// Whether the script turns `a` into `b`.
pub open spec fn transforms(script: Seq<Edit>, a: Seq<char>, b: Seq<char>) -> bool {
    runs(script, a) && run(script, a) == b
}

/// A last occurrence depends on the searched characters only.
pub proof fn lemma_last_occurrence_agrees(s: Seq<char>, s2: Seq<char>, c: char, n: int)
    requires
        forall|m: int| 0 <= m < n ==> s[m] == s2[m],
    ensures
        last_occurrence(s, c, n) == last_occurrence(s2, c, n),
    decreases n,
{
    if n > 0 && s[n - 1] != c {
        lemma_last_occurrence_agrees(s, s2, c, n - 1);
    }
}

/// A prefix distance depends on the two prefixes only.
pub proof fn lemma_prefix_distance_agrees(
    s: Seq<char>,
    t: Seq<char>,
    s2: Seq<char>,
    t2: Seq<char>,
    i: int,
    j: int,
)
    requires
        forall|m: int| 0 <= m < i ==> s[m] == s2[m],
        forall|m: int| 0 <= m < j ==> t[m] == t2[m],
    ensures
        prefix_distance(s, t, i, j) == prefix_distance(s2, t2, i, j),
    decreases i + j,
{
    if i > 0 && j > 0 {
        let k = last_occurrence(s, t[j - 1], i - 1);
        let l = last_occurrence(t, s[i - 1], j - 1);
        lemma_last_occurrence_agrees(s, s2, t[j - 1], i - 1);
        lemma_last_occurrence_agrees(t, t2, s[i - 1], j - 1);
        lemma_prefix_distance_agrees(s, t, s2, t2, i, j - 1);
        lemma_prefix_distance_agrees(s, t, s2, t2, i - 1, j);
        lemma_prefix_distance_agrees(s, t, s2, t2, i - 1, j - 1);
        if 0 < k < i && 0 < l < j {
            lemma_prefix_distance_agrees(s, t, s2, t2, k - 1, l - 1);
        }
    }
}

/// A prefix distance is the distance between the two prefixes.
pub proof fn lemma_prefix_is_distance(s: Seq<char>, t: Seq<char>, i: int, j: int)
    requires
        0 <= i <= s.len(),
        0 <= j <= t.len(),
    ensures
        prefix_distance(s, t, i, j) == edit_distance(s.take(i), t.take(j)),
{
    lemma_prefix_distance_agrees(s, t, s.take(i), t.take(j), i, j);
}

/// What the distance between two strings that end in `a` and in `b` comes
/// to, in terms of distances between shorter strings.
pub open spec fn unfolded(u: Seq<char>, a: char, v: Seq<char>, b: char) -> int {
    let cost: int = if a == b {
        0
    } else {
        1
    };
    let k = last_occurrence(u, b, u.len() as int);
    let l = last_occurrence(v, a, v.len() as int);
    let step = min2(
        min2(edit_distance(u.push(a), v) + 1, edit_distance(u, v.push(b)) + 1),
        edit_distance(u, v) + cost,
    );
    if 0 < k && 0 < l {
        min2(
            step,
            edit_distance(u.take(k - 1), v.take(l - 1)) + (u.len() - k) + 1 + (v.len() - l),
        )
    } else {
        step
    }
}

/// The distance between two strings that are not empty unfolds once.
pub proof fn lemma_unfold(u: Seq<char>, a: char, v: Seq<char>, b: char)
    ensures
        edit_distance(u.push(a), v.push(b)) == unfolded(u, a, v, b),
{
    let s = u.push(a);
    let t = v.push(b);
    let i = s.len() as int;
    let j = t.len() as int;
    assert(s.take(i) =~= s);
    assert(t.take(j) =~= t);
    assert(s.take(i - 1) =~= u);
    assert(t.take(j - 1) =~= v);
    lemma_prefix_is_distance(s, t, i, j - 1);
    lemma_prefix_is_distance(s, t, i - 1, j);
    lemma_prefix_is_distance(s, t, i - 1, j - 1);
    lemma_last_occurrence_agrees(s, u, b, i - 1);
    lemma_last_occurrence_agrees(t, v, a, j - 1);
    let k = last_occurrence(u, b, u.len() as int);
    let l = last_occurrence(v, a, v.len() as int);
    lemma_last_occurrence(u, b, u.len() as int);
    lemma_last_occurrence(v, a, v.len() as int);
    if 0 < k && 0 < l {
        lemma_prefix_is_distance(s, t, k - 1, l - 1);
        assert(s.take(k - 1) =~= u.take(k - 1));
        assert(t.take(l - 1) =~= v.take(l - 1));
    }
}

/// Against the empty string the distance is the length of the other.
pub proof fn lemma_distance_to_empty(x: Seq<char>)
    ensures
        edit_distance(x, Seq::<char>::empty()) == x.len(),
        edit_distance(Seq::<char>::empty(), x) == x.len(),
{
    lemma_distance_bounds(x, Seq::<char>::empty());
    lemma_distance_bounds(Seq::<char>::empty(), x);
}

/// One character more at the end of the first string costs at most one.
pub proof fn lemma_bound_delete(x: Seq<char>, a: char, y: Seq<char>)
    ensures
        edit_distance(x.push(a), y) <= edit_distance(x, y) + 1,
{
    if y.len() == 0 {
        assert(y =~= Seq::<char>::empty());
        lemma_distance_to_empty(x);
        lemma_distance_to_empty(x.push(a));
    } else {
        assert(y =~= y.drop_last().push(y.last()));
        lemma_unfold(x, a, y.drop_last(), y.last());
    }
}

/// One character more at the end of the second string costs at most one.
pub proof fn lemma_bound_insert(x: Seq<char>, y: Seq<char>, b: char)
    ensures
        edit_distance(x, y.push(b)) <= edit_distance(x, y) + 1,
{
    lemma_distance_symmetric(x, y.push(b));
    lemma_distance_symmetric(x, y);
    lemma_bound_delete(y, b, x);
}

/// The same character at the end of both strings costs nothing.
pub proof fn lemma_bound_match(x: Seq<char>, y: Seq<char>, a: char)
    ensures
        edit_distance(x.push(a), y.push(a)) <= edit_distance(x, y),
{
    lemma_unfold(x, a, y, a);
}

/// One character at the end of each string costs at most one.
pub proof fn lemma_bound_substitute(x: Seq<char>, a: char, y: Seq<char>, b: char)
    ensures
        edit_distance(x.push(a), y.push(b)) <= edit_distance(x, y) + 1,
{
    lemma_unfold(x, a, y, b);
}

/// More characters at the end of the first string cost at most one each.
pub proof fn lemma_bound_drop(x: Seq<char>, w: Seq<char>, y: Seq<char>)
    ensures
        edit_distance(x + w, y) <= edit_distance(x, y) + w.len(),
    decreases w.len(),
{
    if w.len() == 0 {
        assert(x + w =~= x);
    } else {
        lemma_bound_drop(x, w.drop_last(), y);
        assert(x + w =~= (x + w.drop_last()).push(w.last()));
        lemma_bound_delete(x + w.drop_last(), w.last(), y);
    }
}

/// More characters at the end of the second string cost at most one each.
pub proof fn lemma_bound_add(x: Seq<char>, y: Seq<char>, z: Seq<char>)
    ensures
        edit_distance(x, y + z) <= edit_distance(x, y) + z.len(),
{
    lemma_distance_symmetric(x, y + z);
    lemma_distance_symmetric(x, y);
    lemma_bound_drop(y, z, x);
}

/// Two characters that stand crosswise near the ends of the two strings cost
/// one swap, and one more for each character that follows the first of them
/// in either string.
pub proof fn lemma_bound_transpose(
    p: Seq<char>,
    b: char,
    w: Seq<char>,
    a: char,
    q: Seq<char>,
    z: Seq<char>,
)
    ensures
        edit_distance((p.push(b) + w).push(a), (q.push(a) + z).push(b)) <= edit_distance(p, q)
            + w.len() + 1 + z.len(),
{
    let u = p.push(b) + w;
    let v = q.push(a) + z;
    let k = last_occurrence(u, b, u.len() as int);
    let l = last_occurrence(v, a, v.len() as int);
    lemma_unfold(u, a, v, b);
    lemma_last_occurrence(u, b, u.len() as int);
    lemma_last_occurrence(v, a, v.len() as int);
    assert(u[p.len() as int] == b);
    assert(v[q.len() as int] == a);
    assert(k > p.len());
    assert(l > q.len());
    let more_u = u.subrange(p.len() as int, k - 1);
    let more_v = v.subrange(q.len() as int, l - 1);
    assert(u.take(k - 1) =~= p + more_u);
    assert(v.take(l - 1) =~= q + more_v);
    lemma_bound_drop(p, more_u, q + more_v);
    lemma_bound_add(p, q, more_v);
}

/// A string that ends in `a` is within reach of one that ends in `a`, more
/// characters and `b`, at one edit for each of those.
pub proof fn lemma_bound_tail(x: Seq<char>, a: char, q: Seq<char>, z: Seq<char>, b: char)
    ensures
        edit_distance(x.push(a), (q.push(a) + z).push(b)) <= edit_distance(x, q) + z.len() + 1,
{
    lemma_bound_insert(x.push(a), q.push(a) + z, b);
    lemma_bound_add(x.push(a), q.push(a), z);
    lemma_bound_match(x, q, a);
}

/// Without its last character, the first of two strings that cross is no
/// farther from the second than the swap would make it.
pub proof fn lemma_cross_without_last(
    p: Seq<char>,
    b: char,
    w: Seq<char>,
    a: char,
    q: Seq<char>,
    z: Seq<char>,
)
    ensures
        edit_distance(p.push(b) + w, (q.push(a) + z).push(b)) <= edit_distance(p, q) + w.len()
            + z.len() + 1,
{
    let t = (q.push(a) + z).push(b);
    lemma_bound_drop(p.push(b), w, t);
    lemma_bound_match(p, q.push(a) + z, b);
    lemma_bound_add(p, q.push(a), z);
    lemma_bound_insert(p, q, a);
}

/// An insertion before the last character of the first of two strings that
/// cross adds at most one to the bound of the swap.
pub proof fn lemma_cross_insert(
    at: int,
    c: char,
    p: Seq<char>,
    b: char,
    w: Seq<char>,
    a: char,
    q: Seq<char>,
    z: Seq<char>,
)
    requires
        0 <= at <= p.len() + 1 + w.len(),
        at <= p.len() ==> edit_distance(apply(Edit::Insert { at, letter: c }, p), q)
            <= edit_distance(p, q) + 1,
    ensures
        edit_distance(
            apply(Edit::Insert { at, letter: c }, p.push(b) + w).push(a),
            (q.push(a) + z).push(b),
        ) <= edit_distance(p, q) + w.len() + z.len() + 2,
{
    let u = p.push(b) + w;
    let u2 = apply(Edit::Insert { at, letter: c }, u);
    if at <= p.len() {
        let front = apply(Edit::Insert { at, letter: c }, p);
        assert(u2 =~= front.push(b) + w);
        lemma_bound_transpose(front, b, w, a, q, z);
    } else {
        let w2 = apply(Edit::Insert { at: at - p.len() - 1, letter: c }, w);
        assert(u2 =~= p.push(b) + w2);
        lemma_bound_transpose(p, b, w2, a, q, z);
    }
}

/// A deletion before the last character of the first of two strings that
/// cross adds at most one to the bound of the swap.
pub proof fn lemma_cross_delete(
    at: int,
    p: Seq<char>,
    b: char,
    w: Seq<char>,
    a: char,
    q: Seq<char>,
    z: Seq<char>,
)
    requires
        0 <= at < p.len() + 1 + w.len(),
        at < p.len() ==> edit_distance(apply(Edit::Delete { at }, p), q) <= edit_distance(p, q)
            + 1,
    ensures
        edit_distance(
            apply(Edit::Delete { at }, p.push(b) + w).push(a),
            (q.push(a) + z).push(b),
        ) <= edit_distance(p, q) + w.len() + z.len() + 2,
{
    let u = p.push(b) + w;
    let u2 = apply(Edit::Delete { at }, u);
    if at < p.len() {
        let front = apply(Edit::Delete { at }, p);
        assert(u2 =~= front.push(b) + w);
        lemma_bound_transpose(front, b, w, a, q, z);
    } else if at == p.len() {
        assert(u2 =~= p + w);
        lemma_bound_tail(u2, a, q, z, b);
        lemma_bound_drop(p, w, q);
    } else {
        let w2 = apply(Edit::Delete { at: at - p.len() - 1 }, w);
        assert(u2 =~= p.push(b) + w2);
        lemma_bound_transpose(p, b, w2, a, q, z);
    }
}

/// A substitution before the last character of the first of two strings
/// that cross adds at most one to the bound of the swap.
pub proof fn lemma_cross_substitute(
    at: int,
    c: char,
    p: Seq<char>,
    b: char,
    w: Seq<char>,
    a: char,
    q: Seq<char>,
    z: Seq<char>,
)
    requires
        0 <= at < p.len() + 1 + w.len(),
        at < p.len() ==> edit_distance(apply(Edit::Substitute { at, letter: c }, p), q)
            <= edit_distance(p, q) + 1,
    ensures
        edit_distance(
            apply(Edit::Substitute { at, letter: c }, p.push(b) + w).push(a),
            (q.push(a) + z).push(b),
        ) <= edit_distance(p, q) + w.len() + z.len() + 2,
{
    let u = p.push(b) + w;
    let u2 = apply(Edit::Substitute { at, letter: c }, u);
    if at < p.len() {
        let front = apply(Edit::Substitute { at, letter: c }, p);
        assert(u2 =~= front.push(b) + w);
        lemma_bound_transpose(front, b, w, a, q, z);
    } else if at == p.len() {
        assert(u2 =~= p.push(c) + w);
        lemma_bound_tail(u2, a, q, z, b);
        lemma_bound_drop(p.push(c), w, q);
        lemma_bound_delete(p, c, q);
    } else {
        let w2 = apply(Edit::Substitute { at: at - p.len() - 1, letter: c }, w);
        assert(u2 =~= p.push(b) + w2);
        lemma_bound_transpose(p, b, w2, a, q, z);
    }
}

/// A swap before the last character of the first of two strings that cross
/// adds at most one to the bound of their own swap.
pub proof fn lemma_cross_transpose(
    at: int,
    p: Seq<char>,
    b: char,
    w: Seq<char>,
    a: char,
    q: Seq<char>,
    z: Seq<char>,
)
    requires
        0 <= at,
        at + 1 < p.len() + 1 + w.len(),
        at + 1 < p.len() ==> edit_distance(apply(Edit::Transpose { at }, p), q) <= edit_distance(
            p,
            q,
        ) + 1,
        at + 1 == p.len() ==> edit_distance(apply(Edit::Insert { at, letter: b }, p), q)
            <= edit_distance(p, q) + 1,
    ensures
        edit_distance(
            apply(Edit::Transpose { at }, p.push(b) + w).push(a),
            (q.push(a) + z).push(b),
        ) <= edit_distance(p, q) + w.len() + z.len() + 2,
{
    let u = p.push(b) + w;
    let u2 = apply(Edit::Transpose { at }, u);
    if at + 1 < p.len() {
        let front = apply(Edit::Transpose { at }, p);
        assert(u2 =~= front.push(b) + w);
        lemma_bound_transpose(front, b, w, a, q, z);
    } else if at + 1 == p.len() {
        let front = apply(Edit::Insert { at, letter: b }, p);
        assert(u2 =~= front + w);
        lemma_bound_tail(u2, a, q, z, b);
        lemma_bound_drop(front, w, q);
    } else if at == p.len() {
        assert(u2 =~= p.push(w[0]).push(b) + w.skip(1));
        lemma_bound_transpose(p.push(w[0]), b, w.skip(1), a, q, z);
        lemma_bound_delete(p, w[0], q);
    } else {
        let w2 = apply(Edit::Transpose { at: at - p.len() - 1 }, w);
        assert(u2 =~= p.push(b) + w2);
        lemma_bound_transpose(p, b, w2, a, q, z);
    }
}

/// Whether the distance between `u.push(a)` and `v.push(b)` is that of the
/// swap of `a` and `b` with their last occurrences in the other string.
pub open spec fn by_swap(u: Seq<char>, a: char, v: Seq<char>, b: char) -> bool {
    let k = last_occurrence(u, b, u.len() as int);
    let l = last_occurrence(v, a, v.len() as int);
    &&& 0 < k
    &&& 0 < l
    &&& edit_distance(u.push(a), v.push(b)) == edit_distance(u.take(k - 1), v.take(l - 1)) + (
    u.len() - k) + 1 + (v.len() - l)
}

/// Where the distance is that of a swap, the two strings part at the last
/// occurrences into the pieces that the swap speaks of.
pub proof fn lemma_by_swap(u: Seq<char>, a: char, v: Seq<char>, b: char)
    requires
        by_swap(u, a, v, b),
    ensures
        ({
            let k = last_occurrence(u, b, u.len() as int);
            let l = last_occurrence(v, a, v.len() as int);
            &&& 0 < k <= u.len()
            &&& 0 < l <= v.len()
            &&& u == u.take(k - 1).push(b) + u.skip(k)
            &&& v == v.take(l - 1).push(a) + v.skip(l)
        }),
{
    let k = last_occurrence(u, b, u.len() as int);
    let l = last_occurrence(v, a, v.len() as int);
    lemma_last_occurrence(u, b, u.len() as int);
    lemma_last_occurrence(v, a, v.len() as int);
    assert(u =~= u.take(k - 1).push(b) + u.skip(k));
    assert(v =~= v.take(l - 1).push(a) + v.skip(l));
}

/// The distance between two strings that are not empty is one of the four
/// things that it unfolds to.
pub proof fn lemma_unfold_cases(u: Seq<char>, a: char, v: Seq<char>, b: char)
    ensures
        ({
            let d = edit_distance(u.push(a), v.push(b));
            ||| d == edit_distance(u.push(a), v) + 1
            ||| d == edit_distance(u, v.push(b)) + 1
            ||| (a == b && d == edit_distance(u, v))
            ||| (a != b && d == edit_distance(u, v) + 1)
            ||| by_swap(u, a, v, b)
        }),
{
    lemma_unfold(u, a, v, b);
}

/// Deleting the last character of the first string adds at most one.
pub proof fn lemma_end_delete(u: Seq<char>, a: char, v: Seq<char>, b: char)
    requires
        edit_distance(u, v) <= edit_distance(u.push(a), v) + 1,
    ensures
        edit_distance(u, v.push(b)) <= edit_distance(u.push(a), v.push(b)) + 1,
{
    lemma_unfold_cases(u, a, v, b);
    lemma_bound_insert(u, v, b);
    if by_swap(u, a, v, b) {
        let k = last_occurrence(u, b, u.len() as int);
        let l = last_occurrence(v, a, v.len() as int);
        lemma_by_swap(u, a, v, b);
        lemma_cross_without_last(u.take(k - 1), b, u.skip(k), a, v.take(l - 1), v.skip(l));
    }
}

/// Another character in place of the last of the first string adds at most
/// one.
pub proof fn lemma_end_substitute(u: Seq<char>, a: char, c: char, v: Seq<char>, b: char)
    requires
        edit_distance(u.push(c), v) <= edit_distance(u.push(a), v) + 1,
    ensures
        edit_distance(u.push(c), v.push(b)) <= edit_distance(u.push(a), v.push(b)) + 1,
{
    lemma_unfold_cases(u, a, v, b);
    lemma_bound_insert(u.push(c), v, b);
    lemma_bound_delete(u, c, v.push(b));
    lemma_bound_substitute(u, c, v, b);
    if by_swap(u, a, v, b) {
        let k = last_occurrence(u, b, u.len() as int);
        let l = last_occurrence(v, a, v.len() as int);
        lemma_by_swap(u, a, v, b);
        lemma_cross_without_last(u.take(k - 1), b, u.skip(k), a, v.take(l - 1), v.skip(l));
    }
}

/// Swapping the last two characters of the first string adds at most one,
/// where the second string ends in the character that was last.
pub proof fn lemma_end_transpose_match(u1: Seq<char>, e0: char, a: char, v: Seq<char>)
    requires
        v.len() > 0 ==> edit_distance(u1.push(a).push(e0), v.drop_last().push(a))
            <= edit_distance(u1.push(e0).push(a), v.drop_last().push(a)) + 1,
        v.len() > 0 ==> edit_distance(u1.push(a).push(e0), v.push(a)) <= edit_distance(
            u1.push(a).push(e0),
            v.drop_last().push(a),
        ) + 1,
    ensures
        edit_distance(u1.push(a).push(e0), v.push(a)) <= edit_distance(u1.push(e0), v) + 1,
{
    let s2 = u1.push(a).push(e0);
    let t = v.push(a);
    lemma_bound_delete(u1.push(a), e0, t);
    lemma_bound_match(u1, v, a);
    if v.len() == 0 {
        assert(v =~= Seq::<char>::empty());
        lemma_distance_to_empty(u1.push(e0));
        lemma_distance_to_empty(u1);
    } else {
        let v1 = v.drop_last();
        let f = v.last();
        assert(v =~= v1.push(f));
        lemma_unfold_cases(u1, e0, v1, f);
        lemma_bound_match(u1.push(e0), v1, a);
        lemma_bound_insert(u1, v1, f);
        if e0 == f {
            assert(u1.push(a) + Seq::<char>::empty() =~= u1.push(a));
            assert(v1.push(e0) + Seq::<char>::empty() =~= v1.push(e0));
            lemma_bound_transpose(u1, a, Seq::<char>::empty(), e0, v1, Seq::<char>::empty());
        }
        if by_swap(u1, e0, v1, f) {
            let k = last_occurrence(u1, f, u1.len() as int);
            let l = last_occurrence(v1, e0, v1.len() as int);
            lemma_by_swap(u1, e0, v1, f);
            lemma_cross_without_last(u1.take(k - 1), f, u1.skip(k), e0, v1.take(l - 1), v1.skip(l));
        }
    }
}

/// Swapping the last two characters of the first string adds at most one.
pub proof fn lemma_end_transpose(u1: Seq<char>, e0: char, a: char, v: Seq<char>, b: char)
    requires
        edit_distance(u1.push(a).push(e0), v) <= edit_distance(u1.push(e0).push(a), v) + 1,
        edit_distance(u1.push(a).push(e0), v.push(b)) <= edit_distance(u1.push(e0), v.push(b)) + 1,
        edit_distance(u1.push(a).push(e0), v) <= edit_distance(u1.push(e0), v) + 1,
        v.len() > 0 ==> edit_distance(u1.push(a).push(e0), v.drop_last().push(a))
            <= edit_distance(u1.push(e0).push(a), v.drop_last().push(a)) + 1,
        v.len() > 0 ==> edit_distance(u1.push(a).push(e0), v.push(a)) <= edit_distance(
            u1.push(a).push(e0),
            v.drop_last().push(a),
        ) + 1,
    ensures
        edit_distance(u1.push(a).push(e0), v.push(b)) <= edit_distance(
            u1.push(e0).push(a),
            v.push(b),
        ) + 1,
{
    let u = u1.push(e0);
    let s2 = u1.push(a).push(e0);
    let t = v.push(b);
    lemma_unfold_cases(u, a, v, b);
    lemma_bound_insert(s2, v, b);
    if a == b {
        lemma_end_transpose_match(u1, e0, a, v);
    }
    if by_swap(u, a, v, b) {
        let k = last_occurrence(u, b, u.len() as int);
        let l = last_occurrence(v, a, v.len() as int);
        lemma_by_swap(u, a, v, b);
        let p = u.take(k - 1);
        let w = u.skip(k);
        let q = v.take(l - 1);
        let z = v.skip(l);
        if w.len() > 0 {
            let whole = p.push(b) + w;
            assert(whole == u);
            assert(whole.len() == u1.len() + 1);
            assert forall|m: int| 0 <= m < u1.len() implies u1[m] == (p.push(b) + w.drop_last())[m] by {
                assert(u1[m] == u[m]);
                assert(whole[m] == u[m]);
            }
            assert(u1 =~= p.push(b) + w.drop_last());
            assert(w.last() == whole[whole.len() - 1]);
            assert(w.last() == e0);
            lemma_bound_delete(u1.push(a), e0, t);
            lemma_bound_transpose(p, b, w.drop_last(), a, q, z);
        } else {
            let whole = p.push(b) + w;
            assert(whole == u);
            assert(whole =~= p.push(b));
            assert(u1 =~= p);
            assert(e0 == whole[whole.len() - 1]);
            assert(e0 == b);
            lemma_bound_match(p.push(a), q.push(a) + z, b);
            lemma_bound_add(p.push(a), q.push(a), z);
            lemma_bound_match(p, q, a);
        }
    }
}

/// Whether the edit leaves the last character of `s` where it is.
pub open spec fn spares_last(e: Edit, s: Seq<char>) -> bool {
    match e {
        Edit::Insert { at, .. } => at < s.len(),
        Edit::Delete { at } => at + 1 < s.len(),
        Edit::Substitute { at, .. } => at + 1 < s.len(),
        Edit::Transpose { at } => at + 2 < s.len(),
    }
}

/// One edit of the first string changes its distance to any other string by
/// at most one.
pub proof fn lemma_one_edit(e: Edit, s: Seq<char>, t: Seq<char>)
    requires
        applies(e, s),
    ensures
        edit_distance(apply(e, s), t) <= edit_distance(s, t) + 1,
    decreases s.len() + t.len(),
{
    let s2 = apply(e, s);
    if t.len() == 0 {
        assert(t =~= Seq::<char>::empty());
        lemma_distance_to_empty(s);
        lemma_distance_to_empty(s2);
    } else if s.len() == 0 {
        assert(s =~= Seq::<char>::empty());
        match e {
            Edit::Insert { at, letter } => {
                assert(s2 =~= Seq::<char>::empty().push(letter));
                lemma_bound_delete(Seq::<char>::empty(), letter, t);
            },
            _ => {},
        }
    } else {
        let u = s.drop_last();
        let a = s.last();
        let v = t.drop_last();
        let b = t.last();
        assert(s =~= u.push(a));
        assert(t =~= v.push(b));
        lemma_unfold_cases(u, a, v, b);
        if spares_last(e, s) {
            let u2 = apply(e, u);
            assert(s2 =~= u2.push(a));
            lemma_one_edit(e, s, v);
            lemma_one_edit(e, u, t);
            lemma_one_edit(e, u, v);
            lemma_bound_insert(s2, v, b);
            lemma_bound_delete(u2, a, t);
            lemma_bound_match(u2, v, a);
            lemma_bound_substitute(u2, a, v, b);
            if by_swap(u, a, v, b) {
                let k = last_occurrence(u, b, u.len() as int);
                let l = last_occurrence(v, a, v.len() as int);
                lemma_by_swap(u, a, v, b);
                let p = u.take(k - 1);
                let w = u.skip(k);
                let q = v.take(l - 1);
                let z = v.skip(l);
                match e {
                    Edit::Insert { at, letter } => {
                        if at <= p.len() {
                            lemma_one_edit(e, p, q);
                        }
                        lemma_cross_insert(at, letter, p, b, w, a, q, z);
                    },
                    Edit::Delete { at } => {
                        if at < p.len() {
                            lemma_one_edit(e, p, q);
                        }
                        lemma_cross_delete(at, p, b, w, a, q, z);
                    },
                    Edit::Substitute { at, letter } => {
                        if at < p.len() {
                            lemma_one_edit(e, p, q);
                        }
                        lemma_cross_substitute(at, letter, p, b, w, a, q, z);
                    },
                    Edit::Transpose { at } => {
                        if at + 1 < p.len() {
                            lemma_one_edit(e, p, q);
                        }
                        if at + 1 == p.len() {
                            lemma_one_edit(Edit::Insert { at, letter: b }, p, q);
                        }
                        lemma_cross_transpose(at, p, b, w, a, q, z);
                    },
                }
            }
        } else {
            match e {
                Edit::Insert { at, letter } => {
                    assert(s2 =~= s.push(letter));
                    lemma_bound_delete(s, letter, t);
                },
                Edit::Delete { at } => {
                    assert(s2 =~= u);
                    lemma_one_edit(e, s, v);
                    lemma_end_delete(u, a, v, b);
                },
                Edit::Substitute { at, letter } => {
                    assert(s2 =~= u.push(letter));
                    lemma_one_edit(e, s, v);
                    lemma_end_substitute(u, a, letter, v, b);
                },
                Edit::Transpose { at } => {
                    let u1 = u.drop_last();
                    let e0 = u.last();
                    assert(u =~= u1.push(e0));
                    assert(s2 =~= u1.push(a).push(e0));
                    let grow = Edit::Insert { at: u1.len() as int, letter: a };
                    assert(apply(grow, u) =~= s2);
                    lemma_one_edit(e, s, v);
                    lemma_one_edit(grow, u, t);
                    lemma_one_edit(grow, u, v);
                    if v.len() > 0 {
                        let v1 = v.drop_last();
                        let f = v.last();
                        let shorter = v1.push(a);
                        lemma_one_edit(e, s, shorter);
                        let widen = Edit::Insert { at: v1.len() as int, letter: f };
                        assert(apply(widen, shorter) =~= v.push(a));
                        lemma_one_edit(widen, shorter, s2);
                        lemma_distance_symmetric(v.push(a), s2);
                        lemma_distance_symmetric(shorter, s2);
                    }
                    lemma_end_transpose(u1, e0, a, v, b);
                },
            }
        }
    }
}

/// No script that turns `s` into `t` is shorter than their distance.
pub proof fn lemma_distance_minimal(script: Seq<Edit>, s: Seq<char>, t: Seq<char>)
    requires
        transforms(script, s, t),
    ensures
        edit_distance(s, t) <= script.len(),
    decreases script.len(),
{
    if script.len() == 0 {
        crate::distance::lemma_distance_identity(s);
    } else {
        let middle = run(script.drop_last(), s);
        lemma_distance_minimal(script.drop_last(), s, middle);
        lemma_one_edit(script.last(), middle, s);
        lemma_distance_symmetric(t, s);
        lemma_distance_symmetric(middle, s);
    }
}

/// A script with one more edit at its end runs as far as the edit applies,
/// and makes what the edit makes of the result so far.
pub proof fn lemma_run_push(script: Seq<Edit>, e: Edit, a: Seq<char>)
    requires
        runs(script, a),
        applies(e, run(script, a)),
    ensures
        runs(script.push(e), a),
        run(script.push(e), a) == apply(e, run(script, a)),
        script.push(e).len() == script.len() + 1,
{
    assert(script.push(e).drop_last() =~= script);
}

/// Two scripts in a row make what the second makes of the result of the
/// first.
pub proof fn lemma_run_concat(x: Seq<Edit>, y: Seq<Edit>, a: Seq<char>)
    requires
        runs(x, a),
        runs(y, run(x, a)),
    ensures
        runs(x + y, a),
        run(x + y, a) == run(y, run(x, a)),
    decreases y.len(),
{
    if y.len() == 0 {
        assert(x + y =~= x);
    } else {
        lemma_run_concat(x, y.drop_last(), a);
        assert(x + y =~= (x + y.drop_last()).push(y.last()));
        lemma_run_push(x + y.drop_last(), y.last(), a);
    }
}

/// A script leaves alone what stands behind the string that it runs on.
pub proof fn lemma_run_with_suffix(script: Seq<Edit>, a: Seq<char>, rest: Seq<char>)
    requires
        runs(script, a),
    ensures
        runs(script, a + rest),
        run(script, a + rest) == run(script, a) + rest,
    decreases script.len(),
{
    if script.len() > 0 {
        lemma_run_with_suffix(script.drop_last(), a, rest);
        let middle = run(script.drop_last(), a);
        let e = script.last();
        assert(apply(e, middle + rest) =~= apply(e, middle) + rest);
    }
}

/// The script that deletes `count` characters at position `at`.
pub open spec fn deletions(at: int, count: nat) -> Seq<Edit> {
    Seq::new(count, |i: int| Edit::Delete { at })
}

/// Deletions at one position remove the characters that stand there, one
/// after the other.
pub proof fn lemma_deletions(x: Seq<char>, w: Seq<char>, y: Seq<char>, count: nat)
    requires
        count <= w.len(),
    ensures
        runs(deletions(x.len() as int, count), x + w + y),
        run(deletions(x.len() as int, count), x + w + y) == x + w.skip(count as int) + y,
    decreases count,
{
    let at = x.len() as int;
    if count == 0 {
        assert(w.skip(0) =~= w);
    } else {
        let before = (count - 1) as nat;
        lemma_deletions(x, w, y, before);
        assert(deletions(at, count).drop_last() =~= deletions(at, before));
        let middle = x + w.skip(before as int) + y;
        assert(apply(Edit::Delete { at }, middle) =~= x + w.skip(count as int) + y);
    }
}

/// One more insertion behind what a script has put in puts one more
/// character in.
pub proof fn lemma_insert_next(
    rest: Seq<Edit>,
    start: Seq<char>,
    x: Seq<char>,
    before: Seq<char>,
    c: char,
    y: Seq<char>,
) -> (script: Seq<Edit>)
    requires
        transforms(rest, start, x + before + y),
    ensures
        transforms(script, start, x + before.push(c) + y),
        script.len() == rest.len() + 1,
{
    let e = Edit::Insert { at: (x.len() + before.len()) as int, letter: c };
    assert(apply(e, x + before + y) =~= x + before.push(c) + y);
    lemma_run_push(rest, e, start);
    rest.push(e)
}

/// Insertions at rising positions put the characters of `z` in, in order.
pub proof fn lemma_insertions(x: Seq<char>, z: Seq<char>, y: Seq<char>) -> (script: Seq<Edit>)
    ensures
        transforms(script, x + y, x + z + y),
        script.len() == z.len(),
    decreases z.len(),
{
    if z.len() == 0 {
        assert(x + z + y =~= x + y);
        Seq::empty()
    } else {
        let before = z.drop_last();
        let rest = lemma_insertions(x, before, y);
        let script = lemma_insert_next(rest, x + y, x, before, z.last(), y);
        assert(before.push(z.last()) =~= z);
        script
    }
}

/// A script for `s` and `v`, and then an insertion at the end, is one for
/// `s` and `v.push(b)`.
pub proof fn lemma_script_insert(first: Seq<Edit>, s: Seq<char>, v: Seq<char>, b: char) -> (script:
    Seq<Edit>)
    requires
        transforms(first, s, v),
    ensures
        transforms(script, s, v.push(b)),
        script.len() == first.len() + 1,
{
    let e = Edit::Insert { at: v.len() as int, letter: b };
    assert(apply(e, v) =~= v.push(b));
    lemma_run_push(first, e, s);
    first.push(e)
}

/// A deletion at the end, and then a script for `u` and `t`, is one for
/// `u.push(a)` and `t`.
pub proof fn lemma_script_delete(rest: Seq<Edit>, u: Seq<char>, a: char, t: Seq<char>) -> (script:
    Seq<Edit>)
    requires
        transforms(rest, u, t),
    ensures
        transforms(script, u.push(a), t),
        script.len() == rest.len() + 1,
{
    let s = u.push(a);
    let e = Edit::Delete { at: u.len() as int };
    let first = Seq::<Edit>::empty().push(e);
    assert(apply(e, s) =~= u);
    assert(runs(Seq::<Edit>::empty(), s));
    lemma_run_push(Seq::<Edit>::empty(), e, s);
    lemma_run_concat(first, rest, s);
    first + rest
}

/// A script for `u` and `v` is one for `u.push(a)` and `v.push(a)`, and with
/// a substitution at the end one for `u.push(a)` and `v.push(b)`.
pub proof fn lemma_script_substitute(
    first: Seq<Edit>,
    u: Seq<char>,
    a: char,
    v: Seq<char>,
    b: char,
) -> (script: Seq<Edit>)
    requires
        transforms(first, u, v),
    ensures
        transforms(script, u.push(a), v.push(b)),
        script.len() == first.len() + (if a == b {
            0int
        } else {
            1int
        }),
{
    let s = u.push(a);
    let last = Seq::<char>::empty().push(a);
    lemma_run_with_suffix(first, u, last);
    assert(u + last =~= s);
    assert(v + last =~= v.push(a));
    if a == b {
        first
    } else {
        let e = Edit::Substitute { at: v.len() as int, letter: b };
        assert(apply(e, v.push(a)) =~= v.push(b));
        lemma_run_push(first, e, s);
        first.push(e)
    }
}

/// A script for `p` and `q`, then the deletion of `w`, then the swap, then
/// the insertion of `z`, is a script for the two strings that cross.
pub proof fn lemma_script_swap(
    first: Seq<Edit>,
    p: Seq<char>,
    b: char,
    w: Seq<char>,
    a: char,
    q: Seq<char>,
    z: Seq<char>,
) -> (script: Seq<Edit>)
    requires
        transforms(first, p, q),
    ensures
        transforms(script, (p.push(b) + w).push(a), (q.push(a) + z).push(b)),
        script.len() == first.len() + w.len() + 1 + z.len(),
{
    let s = (p.push(b) + w).push(a);
    let t = (q.push(a) + z).push(b);
    let only_a = Seq::<char>::empty().push(a);
    let only_b = Seq::<char>::empty().push(b);
    let tail = (only_b + w).push(a);
    lemma_run_with_suffix(first, p, tail);
    assert(p + tail =~= s);
    assert(q + tail =~= q.push(b) + w + only_a);
    let second = deletions(q.len() as int + 1, w.len());
    lemma_deletions(q.push(b), w, only_a, w.len());
    assert(q.push(b) + w.skip(w.len() as int) + only_a =~= q.push(b).push(a));
    lemma_run_concat(first, second, s);
    let e = Edit::Transpose { at: q.len() as int };
    assert(apply(e, q.push(b).push(a)) =~= q.push(a) + only_b);
    lemma_run_push(first + second, e, s);
    let third = (first + second).push(e);
    let fourth = lemma_insertions(q.push(a), z, only_b);
    assert(q.push(a) + z + only_b =~= t);
    lemma_run_concat(third, fourth, s);
    third + fourth
}

/// Some script as long as the distance turns `s` into `t`.
pub proof fn lemma_distance_attained(s: Seq<char>, t: Seq<char>) -> (script: Seq<Edit>)
    ensures
        transforms(script, s, t),
        script.len() == edit_distance(s, t),
    decreases s.len() + t.len(),
{
    let none = Seq::<char>::empty();
    if t.len() == 0 {
        lemma_distance_to_empty(s);
        lemma_deletions(none, s, none, s.len());
        assert(none + s + none =~= s);
        assert(none + s.skip(s.len() as int) + none =~= t);
        deletions(0, s.len())
    } else if s.len() == 0 {
        lemma_distance_to_empty(t);
        let script = lemma_insertions(none, t, none);
        assert(none + none =~= s);
        assert(none + t + none =~= t);
        script
    } else {
        let u = s.drop_last();
        let a = s.last();
        let v = t.drop_last();
        let b = t.last();
        assert(s =~= u.push(a));
        assert(t =~= v.push(b));
        lemma_unfold_cases(u, a, v, b);
        let d = edit_distance(s, t);
        if d == edit_distance(s, v) + 1 {
            let first = lemma_distance_attained(s, v);
            lemma_script_insert(first, s, v, b)
        } else if d == edit_distance(u, t) + 1 {
            let rest = lemma_distance_attained(u, t);
            lemma_script_delete(rest, u, a, t)
        } else if d == edit_distance(u, v) + (if a == b {
            0int
        } else {
            1int
        }) {
            let first = lemma_distance_attained(u, v);
            lemma_script_substitute(first, u, a, v, b)
        } else {
            let k = last_occurrence(u, b, u.len() as int);
            let l = last_occurrence(v, a, v.len() as int);
            lemma_by_swap(u, a, v, b);
            let first = lemma_distance_attained(u.take(k - 1), v.take(l - 1));
            lemma_script_swap(first, u.take(k - 1), b, u.skip(k), a, v.take(l - 1), v.skip(l))
        }
    }
}

/// Whether `d` is the least number of edits that turn `s` into `t`: some
/// script of that length does, and no shorter one.
pub open spec fn is_least_edit_count(s: Seq<char>, t: Seq<char>, d: int) -> bool {
    &&& exists|script: Seq<Edit>| #[trigger] transforms(script, s, t) && script.len() == d
    &&& forall|script: Seq<Edit>| #[trigger] transforms(script, s, t) ==> d <= script.len()
}

/// The distance between two strings is the least number of insertions,
/// deletions, substitutions and swaps of neighbours that turn the one into
/// the other.
pub proof fn lemma_distance_is_least_edit_count(s: Seq<char>, t: Seq<char>)
    ensures
        is_least_edit_count(s, t, edit_distance(s, t)),
{
    let script = lemma_distance_attained(s, t);
    assert(transforms(script, s, t) && script.len() == edit_distance(s, t));
    assert forall|other: Seq<Edit>| #[trigger] transforms(other, s, t) implies edit_distance(s, t)
        <= other.len() by {
        lemma_distance_minimal(other, s, t);
    }
}

} // verus!
