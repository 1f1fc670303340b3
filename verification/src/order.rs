//! Lexicographic order on byte strings, and searches in sorted key vectors.

use vstd::prelude::*;

verus! {

/// The first position at or after `i` where `a` and `b` differ, or where one
/// of them ends.
pub open spec fn first_diff(a: Seq<u8>, b: Seq<u8>, i: int) -> int
    decreases a.len() - i,
{
    if 0 <= i < a.len() && i < b.len() && a[i] == b[i] {
        first_diff(a, b, i + 1)
    } else {
        i
    }
}

/// `a` comes strictly before `b` in lexicographic byte order.
pub open spec fn lex_lt(a: Seq<u8>, b: Seq<u8>) -> bool {
    let k = first_diff(a, b, 0);
    if k < a.len() && k < b.len() {
        a[k] < b[k]
    } else {
        a.len() < b.len()
    }
}

/// `a` comes before `b` or equals it.
pub open spec fn lex_le(a: Seq<u8>, b: Seq<u8>) -> bool {
    !lex_lt(b, a)
}

/// What `first_diff` returns: the two strings agree before it and part at it.
pub proof fn lemma_first_diff(a: Seq<u8>, b: Seq<u8>, i: int)
    requires
        0 <= i <= a.len(),
        i <= b.len(),
    ensures
        i <= first_diff(a, b, i) <= a.len(),
        first_diff(a, b, i) <= b.len(),
        forall|j: int| i <= j < first_diff(a, b, i) ==> a[j] == b[j],
        first_diff(a, b, i) < a.len() && first_diff(a, b, i) < b.len() ==> a[first_diff(a, b, i)]
            != b[first_diff(a, b, i)],
    decreases a.len() - i,
{
    if i < a.len() && i < b.len() && a[i] == b[i] {
        lemma_first_diff(a, b, i + 1);
    }
}

/// A position with the properties of `first_diff` is `first_diff`.
pub proof fn lemma_first_diff_unique(a: Seq<u8>, b: Seq<u8>, i: int, k: int)
    requires
        0 <= i <= k <= a.len(),
        k <= b.len(),
        forall|j: int| i <= j < k ==> a[j] == b[j],
        k < a.len() && k < b.len() ==> a[k] != b[k],
    ensures
        first_diff(a, b, i) == k,
    decreases k - i,
{
    if i < k {
        lemma_first_diff_unique(a, b, i + 1, k);
    }
}

/// No byte string comes before itself.
pub proof fn lemma_lex_irreflexive(a: Seq<u8>)
    ensures
        !lex_lt(a, a),
{
    lemma_first_diff(a, a, 0);
}

/// Of two byte strings exactly one comes first, unless they are equal.
pub proof fn lemma_lex_total(a: Seq<u8>, b: Seq<u8>)
    ensures
        lex_lt(a, b) || lex_lt(b, a) || a == b,
        !(lex_lt(a, b) && lex_lt(b, a)),
        a == b ==> !lex_lt(a, b),
{
    lemma_first_diff(a, b, 0);
    let k = first_diff(a, b, 0);
    lemma_first_diff_unique(b, a, 0, k);
    if !lex_lt(a, b) && !lex_lt(b, a) {
        assert(a =~= b);
    }
    lemma_lex_irreflexive(a);
}

/// The order is transitive.
pub proof fn lemma_lex_transitive(a: Seq<u8>, b: Seq<u8>, c: Seq<u8>)
    requires
        lex_lt(a, b),
        lex_lt(b, c),
    ensures
        lex_lt(a, c),
{
    lemma_first_diff(a, b, 0);
    lemma_first_diff(b, c, 0);
    let k1 = first_diff(a, b, 0);
    let k2 = first_diff(b, c, 0);
    let k = if k1 <= k2 { k1 } else { k2 };
    assert forall|j: int| 0 <= j < k implies a[j] == c[j] by {
        assert(a[j] == b[j]);
        assert(b[j] == c[j]);
    }
    lemma_first_diff_unique(a, c, 0, k);
}

/// `a < b` and `b <= c` give `a < c`.
pub proof fn lemma_lex_lt_le(a: Seq<u8>, b: Seq<u8>, c: Seq<u8>)
    requires
        lex_lt(a, b),
        lex_le(b, c),
    ensures
        lex_lt(a, c),
{
    lemma_lex_total(b, c);
    if b != c {
        lemma_lex_transitive(a, b, c);
    }
}

/// `a <= b` and `b <= c` give `a <= c`.
pub proof fn lemma_lex_le_transitive(a: Seq<u8>, b: Seq<u8>, c: Seq<u8>)
    requires
        lex_le(a, b),
        lex_le(b, c),
    ensures
        lex_le(a, c),
{
    if lex_lt(c, a) {
        lemma_lex_lt_le(c, a, b);
    }
}

/// Whether `a` comes strictly before `b` in lexicographic byte order.
pub fn lex_less(a: &[u8], b: &[u8]) -> (r: bool)
    ensures
        r == lex_lt(a@, b@),
{
    let mut i: usize = 0;
    while i < a.len() && i < b.len() && a[i] == b[i]
        invariant
            0 <= i <= a@.len(),
            i <= b@.len(),
            first_diff(a@, b@, 0) == first_diff(a@, b@, i as int),
        decreases a@.len() - i,
    {
        i += 1;
    }
    if i < a.len() && i < b.len() {
        a[i] < b[i]
    } else {
        a.len() < b.len()
    }
}

/// Whether two byte strings hold the same bytes.
pub fn bytes_equal(a: &[u8], b: &[u8]) -> (r: bool)
    ensures
        r == (a@ == b@),
{
    if a.len() != b.len() {
        return false;
    }
    let mut i: usize = 0;
    while i < a.len()
        invariant
            0 <= i <= a@.len(),
            a@.len() == b@.len(),
            forall|j: int| 0 <= j < i ==> a@[j] == b@[j],
        decreases a@.len() - i,
    {
        if a[i] != b[i] {
            return false;
        }
        i += 1;
    }
    assert(a@ =~= b@);
    true
}

/// The keys are strictly increasing.
pub open spec fn strictly_sorted(keys: Seq<Seq<u8>>) -> bool {
    forall|i: int, j: int| 0 <= i < j < keys.len() ==> lex_lt(#[trigger] keys[i], #[trigger] keys[j])
}

/// The number of keys that come strictly before `key`: where a sorted vector
/// holds `key`, or would take it.
pub open spec fn rank(keys: Seq<Seq<u8>>, key: Seq<u8>) -> nat
    decreases keys.len(),
{
    if keys.len() == 0 {
        0
    } else {
        rank(keys.drop_last(), key) + if lex_lt(keys.last(), key) {
            1nat
        } else {
            0nat
        }
    }
}

/// The number of keys that are at most `key`: the child that an internal node
/// routes `key` to, a pivot being the least key of its right child.
pub open spec fn route(pivots: Seq<Seq<u8>>, key: Seq<u8>) -> nat
    decreases pivots.len(),
{
    if pivots.len() == 0 {
        0
    } else {
        route(pivots.drop_last(), key) + if lex_le(pivots.last(), key) {
            1nat
        } else {
            0nat
        }
    }
}

/// In sorted keys the ones before `key` are exactly the first `rank` ones.
pub proof fn lemma_rank_is(keys: Seq<Seq<u8>>, key: Seq<u8>, pos: int)
    requires
        0 <= pos <= keys.len(),
        forall|i: int| 0 <= i < pos ==> lex_lt(#[trigger] keys[i], key),
        forall|i: int| pos <= i < keys.len() ==> !lex_lt(#[trigger] keys[i], key),
    ensures
        rank(keys, key) == pos,
    decreases keys.len(),
{
    if keys.len() > 0 {
        let front = keys.drop_last();
        if pos == keys.len() {
            lemma_rank_is(front, key, pos - 1);
        } else {
            lemma_rank_is(front, key, pos);
        }
    }
}

/// In sorted pivots the ones at most `key` are exactly the first `route` ones.
pub proof fn lemma_route_is(pivots: Seq<Seq<u8>>, key: Seq<u8>, pos: int)
    requires
        0 <= pos <= pivots.len(),
        forall|i: int| 0 <= i < pos ==> lex_le(#[trigger] pivots[i], key),
        forall|i: int| pos <= i < pivots.len() ==> !lex_le(#[trigger] pivots[i], key),
    ensures
        route(pivots, key) == pos,
    decreases pivots.len(),
{
    if pivots.len() > 0 {
        let front = pivots.drop_last();
        if pos == pivots.len() {
            lemma_route_is(front, key, pos - 1);
        } else {
            lemma_route_is(front, key, pos);
        }
    }
}

/// `rank` and `route` never exceed the number of keys.
pub proof fn lemma_rank_bound(keys: Seq<Seq<u8>>, key: Seq<u8>)
    ensures
        rank(keys, key) <= keys.len(),
        route(keys, key) <= keys.len(),
    decreases keys.len(),
{
    if keys.len() > 0 {
        lemma_rank_bound(keys.drop_last(), key);
    }
}

} // verus!
