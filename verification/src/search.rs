//! Binary searches in sorted key vectors.

use crate::buf::{Buf, views};
use crate::order::{
    lemma_lex_transitive, lemma_rank_is, lemma_route_is, lex_le, lex_less, lex_lt, rank, route,
    strictly_sorted,
};
use vstd::prelude::*;

verus! {

/// The number of keys that come strictly before `key`.
pub fn lower_bound(keys: &Vec<Buf>, key: &[u8]) -> (pos: usize)
    requires
        strictly_sorted(views(keys@)),
    ensures
        pos == rank(views(keys@), key@),
        pos <= keys@.len(),
        forall|i: int| 0 <= i < pos ==> lex_lt(#[trigger] keys@[i]@, key@),
        forall|i: int| pos <= i < keys@.len() ==> !lex_lt(#[trigger] keys@[i]@, key@),
{
    let ghost ks = views(keys@);
    let mut lo: usize = 0;
    let mut hi: usize = keys.len();
    while lo < hi
        invariant
            ks == views(keys@),
            strictly_sorted(ks),
            0 <= lo <= hi <= keys@.len(),
            forall|i: int| 0 <= i < lo ==> lex_lt(#[trigger] keys@[i]@, key@),
            forall|i: int| hi <= i < keys@.len() ==> !lex_lt(#[trigger] keys@[i]@, key@),
        decreases hi - lo,
    {
        let mid: usize = lo + (hi - lo) / 2;
        if lex_less(keys[mid].bytes(), key) {
            assert forall|i: int| 0 <= i < mid + 1 implies lex_lt(#[trigger] keys@[i]@, key@) by {
                if i < mid {
                    assert(lex_lt(ks[i], ks[mid as int]));
                    lemma_lex_transitive(ks[i], ks[mid as int], key@);
                }
            }
            lo = mid + 1;
        } else {
            assert forall|i: int| mid <= i < keys@.len() implies !lex_lt(
                #[trigger] keys@[i]@,
                key@,
            ) by {
                if i > mid && lex_lt(keys@[i]@, key@) {
                    assert(lex_lt(ks[mid as int], ks[i]));
                    lemma_lex_transitive(ks[mid as int], ks[i], key@);
                }
            }
            hi = mid;
        }
    }
    proof {
        assert forall|i: int| 0 <= i < lo implies lex_lt(#[trigger] ks[i], key@) by {
            assert(lex_lt(keys@[i]@, key@));
        }
        assert forall|i: int| lo <= i < ks.len() implies !lex_lt(#[trigger] ks[i], key@) by {
            assert(!lex_lt(keys@[i]@, key@));
        }
        lemma_rank_is(ks, key@, lo as int);
    }
    lo
}

/// The number of pivots that are at most `key`: the child that `key` goes to.
pub fn upper_bound(pivots: &Vec<Buf>, key: &[u8]) -> (pos: usize)
    requires
        strictly_sorted(views(pivots@)),
    ensures
        pos == route(views(pivots@), key@),
        pos <= pivots@.len(),
        forall|i: int| 0 <= i < pos ==> lex_le(#[trigger] pivots@[i]@, key@),
        forall|i: int| pos <= i < pivots@.len() ==> lex_lt(key@, #[trigger] pivots@[i]@),
{
    let ghost ks = views(pivots@);
    let mut lo: usize = 0;
    let mut hi: usize = pivots.len();
    while lo < hi
        invariant
            ks == views(pivots@),
            strictly_sorted(ks),
            0 <= lo <= hi <= pivots@.len(),
            forall|i: int| 0 <= i < lo ==> lex_le(#[trigger] pivots@[i]@, key@),
            forall|i: int| hi <= i < pivots@.len() ==> lex_lt(key@, #[trigger] pivots@[i]@),
        decreases hi - lo,
    {
        let mid: usize = lo + (hi - lo) / 2;
        if lex_less(key, pivots[mid].bytes()) {
            assert forall|i: int| mid <= i < pivots@.len() implies lex_lt(
                key@,
                #[trigger] pivots@[i]@,
            ) by {
                if i > mid {
                    assert(lex_lt(ks[mid as int], ks[i]));
                    lemma_lex_transitive(key@, ks[mid as int], ks[i]);
                }
            }
            hi = mid;
        } else {
            assert forall|i: int| 0 <= i < mid + 1 implies lex_le(#[trigger] pivots@[i]@, key@) by {
                if i < mid && lex_lt(key@, pivots@[i]@) {
                    assert(lex_lt(ks[i], ks[mid as int]));
                    lemma_lex_transitive(key@, ks[i], ks[mid as int]);
                }
            }
            lo = mid + 1;
        }
    }
    proof {
        assert forall|i: int| 0 <= i < lo implies lex_le(#[trigger] ks[i], key@) by {
            assert(lex_le(pivots@[i]@, key@));
        }
        assert forall|i: int| lo <= i < ks.len() implies !lex_le(#[trigger] ks[i], key@) by {
            assert(lex_lt(key@, pivots@[i]@));
        }
        lemma_route_is(ks, key@, lo as int);
    }
    lo
}

/// Whether the keys increase strictly.
pub fn sorted_keys(keys: &Vec<Buf>) -> (r: bool)
    ensures
        r == strictly_sorted(views(keys@)),
{
    let ghost ks = views(keys@);
    if keys.len() < 2 {
        return true;
    }
    let mut i: usize = 1;
    while i < keys.len()
        invariant
            1 <= i <= keys@.len(),
            ks == views(keys@),
            forall|a: int, b: int| 0 <= a < b < i ==> lex_lt(#[trigger] ks[a], #[trigger] ks[b]),
        decreases keys@.len() - i,
    {
        if !lex_less(keys[i - 1].bytes(), keys[i].bytes()) {
            assert(!lex_lt(ks[i - 1], ks[i as int]));
            return false;
        }
        proof {
            assert forall|a: int, b: int| 0 <= a < b < i + 1 implies lex_lt(
                #[trigger] ks[a],
                #[trigger] ks[b],
            ) by {
                if b == i && a < i - 1 {
                    assert(lex_lt(ks[a], ks[i - 1]));
                    lemma_lex_transitive(ks[a], ks[i - 1], ks[i as int]);
                }
            }
        }
        i += 1;
    }
    true
}

} // verus!
