//! Leaves: the sorted key/value pairs of the index.

use crate::buf::{all_shared, as_slices, Buf, lemma_views_framable, to_shared, views};
use crate::codec::{concat, put_chunks};
use crate::error::ErrorType;
use crate::index::message::{Message, msg_views, MsgView, stays_shared};
use crate::index::tree::Tree;
use crate::layout::{
    leaf_decodable, leaf_encoding, leaf_keys_at, leaf_vals_at, read_leaf, write_leaf,
};
use crate::node::{Body, NewSibling};
use crate::order::{lemma_lex_total, lex_lt, rank, strictly_sorted};
use crate::search::lower_bound;
use crate::util::reversed;
use vstd::prelude::*;

verus! {

/// The sorted keys hold `key`.
pub open spec fn holds(keys: Seq<Seq<u8>>, key: Seq<u8>) -> bool {
    rank(keys, key) < keys.len() && keys[rank(keys, key) as int] == key
}

/// The keys after `key` was assigned a value: `key` stands at its sorted
/// place, once.
pub open spec fn keys_after(keys: Seq<Seq<u8>>, key: Seq<u8>) -> Seq<Seq<u8>> {
    if holds(keys, key) {
        keys
    } else {
        keys.insert(rank(keys, key) as int, key)
    }
}

/// The values after `key` was assigned `data`: `data` stands where `key`
/// does, in place of the value that `key` had, if it had one.
pub open spec fn vals_after(
    keys: Seq<Seq<u8>>,
    vals: Seq<Seq<u8>>,
    key: Seq<u8>,
    data: Seq<u8>,
) -> Seq<Seq<u8>> {
    if holds(keys, key) {
        vals.update(rank(keys, key) as int, data)
    } else {
        vals.insert(rank(keys, key) as int, data)
    }
}

/// The keys after a batch of assignments, made in order.
pub open spec fn keys_after_all(
    keys: Seq<Seq<u8>>,
    batch: Seq<MsgView>,
) -> Seq<Seq<u8>>
    decreases batch.len(),
{
    if batch.len() == 0 {
        keys
    } else {
        keys_after(keys_after_all(keys, batch.drop_last()), batch.last().key)
    }
}

/// The values after a batch of assignments, made in order.
pub open spec fn vals_after_all(
    keys: Seq<Seq<u8>>,
    vals: Seq<Seq<u8>>,
    batch: Seq<MsgView>,
) -> Seq<Seq<u8>>
    decreases batch.len(),
{
    if batch.len() == 0 {
        vals
    } else {
        vals_after(
            keys_after_all(keys, batch.drop_last()),
            vals_after_all(keys, vals, batch.drop_last()),
            batch.last().key,
            batch.last().data,
        )
    }
}

/// A batch of one assignment is that assignment.
pub proof fn lemma_one_assigned(keys: Seq<Seq<u8>>, vals: Seq<Seq<u8>>, m: MsgView)
    ensures
        keys_after_all(keys, seq![m]) == keys_after(keys, m.key),
        vals_after_all(keys, vals, seq![m]) == vals_after(keys, vals, m.key, m.data),
{
    let one = seq![m];
    assert(one.drop_last() =~= Seq::<MsgView>::empty());
    assert(keys_after_all(keys, one.drop_last()) == keys);
    assert(vals_after_all(keys, vals, one.drop_last()) == vals);
}

/// What a leaf holds: each of its keys with the key's value.
pub open spec fn content(keys: Seq<Seq<u8>>, vals: Seq<Seq<u8>>) -> Map<Seq<u8>, Seq<u8>> {
    Map::new(|key: Seq<u8>| keys.contains(key), |key: Seq<u8>| vals[keys.index_of(key)])
}

/// In sorted keys no key stands twice.
pub proof fn lemma_sorted_distinct(keys: Seq<Seq<u8>>, i: int, j: int)
    requires
        strictly_sorted(keys),
        0 <= i < keys.len(),
        0 <= j < keys.len(),
        keys[i] == keys[j],
    ensures
        i == j,
{
    if i < j {
        assert(lex_lt(keys[i], keys[j]));
        lemma_lex_total(keys[i], keys[j]);
    } else if j < i {
        assert(lex_lt(keys[j], keys[i]));
        lemma_lex_total(keys[j], keys[i]);
    }
}

/// A leaf with sorted keys holds, under each key, the value that stands
/// where the key stands.
pub proof fn lemma_content_at(keys: Seq<Seq<u8>>, vals: Seq<Seq<u8>>, i: int)
    requires
        strictly_sorted(keys),
        0 <= i < keys.len(),
    ensures
        content(keys, vals).contains_key(keys[i]),
        content(keys, vals)[keys[i]] == vals[i],
{
    assert(keys.contains(keys[i]));
    let at = keys.index_of(keys[i]);
    lemma_sorted_distinct(keys, i, at);
}

/// Assigning `data` to `key` in a leaf is assigning it in the map that the
/// leaf stands for: the key's earlier value is lost, nothing else is.
pub proof fn lemma_assign_content(
    keys: Seq<Seq<u8>>,
    vals: Seq<Seq<u8>>,
    key: Seq<u8>,
    data: Seq<u8>,
)
    requires
        strictly_sorted(keys),
        keys.len() == vals.len(),
    ensures
        content(keys_after(keys, key), vals_after(keys, vals, key, data)) == content(
            keys,
            vals,
        ).insert(key, data),
{
    let pos = rank(keys, key) as int;
    crate::order::lemma_rank_bound(keys, key);
    lemma_rank_splits(keys, key);
    lemma_keys_after_sorted(keys, key, pos);
    let keys1 = keys_after(keys, key);
    let vals1 = vals_after(keys, vals, key, data);
    let want = content(keys, vals).insert(key, data);
    let got = content(keys1, vals1);
    assert forall|k: Seq<u8>| got.contains_key(k) <==> want.contains_key(k) by {
        if got.contains_key(k) {
            let i = keys1.index_of(k);
            if !holds(keys, key) && i != pos {
                let j = if i < pos {
                    i
                } else {
                    i - 1
                };
                assert(keys[j] == k);
            }
        }
        if want.contains_key(k) && k != key {
            let j = keys.index_of(k);
            if holds(keys, key) {
                assert(keys1[j] == k);
            } else if j < pos {
                assert(keys1[j] == k);
            } else {
                assert(keys1[j + 1] == k);
            }
        }
        if k == key {
            assert(keys1[pos] == key);
        }
    }
    assert forall|k: Seq<u8>| got.contains_key(k) implies got[k] == want[k] by {
        let i = keys1.index_of(k);
        lemma_content_at(keys1, vals1, i);
        if k == key {
            lemma_sorted_distinct(keys1, i, pos);
        } else if holds(keys, key) {
            lemma_content_at(keys, vals, i);
        } else {
            let j = if i < pos {
                i
            } else {
                i - 1
            };
            assert(keys[j] == k);
            lemma_content_at(keys, vals, j);
        }
    }
    assert(got =~= want);
}

/// The map after a batch of assignments, made in order: a later
/// assignment to a key wins over an earlier one.
pub open spec fn assigned(
    map: Map<Seq<u8>, Seq<u8>>,
    batch: Seq<MsgView>,
) -> Map<Seq<u8>, Seq<u8>>
    decreases batch.len(),
{
    if batch.len() == 0 {
        map
    } else {
        assigned(map, batch.drop_last()).insert(batch.last().key, batch.last().data)
    }
}

/// A batch of assignments leaves the keys of a leaf sorted with a value
/// each, and does to the leaf what it does to the map that the leaf stands
/// for: nothing is lost but values that were assigned over.
pub proof fn lemma_batch_content(keys: Seq<Seq<u8>>, vals: Seq<Seq<u8>>, batch: Seq<MsgView>)
    requires
        strictly_sorted(keys),
        keys.len() == vals.len(),
    ensures
        strictly_sorted(keys_after_all(keys, batch)),
        keys_after_all(keys, batch).len() == vals_after_all(keys, vals, batch).len(),
        content(keys_after_all(keys, batch), vals_after_all(keys, vals, batch)) == assigned(
            content(keys, vals),
            batch,
        ),
    decreases batch.len(),
{
    if batch.len() > 0 {
        let front = batch.drop_last();
        lemma_batch_content(keys, vals, front);
        let keys1 = keys_after_all(keys, front);
        let vals1 = vals_after_all(keys, vals, front);
        let key = batch.last().key;
        lemma_rank_splits(keys1, key);
        lemma_keys_after_sorted(keys1, key, rank(keys1, key) as int);
        lemma_assign_content(keys1, vals1, key, batch.last().data);
    }
}

/// Parting a leaf loses no entry and makes none: every key of the leaf is
/// in exactly one half, with its value.
pub proof fn lemma_split_content(keys: Seq<Seq<u8>>, vals: Seq<Seq<u8>>, m: int)
    requires
        strictly_sorted(keys),
        keys.len() == vals.len(),
        0 <= m <= keys.len(),
    ensures
        content(keys.take(m), vals.take(m)).dom().disjoint(
            content(keys.skip(m), vals.skip(m)).dom(),
        ),
        content(keys.take(m), vals.take(m)).union_prefer_right(
            content(keys.skip(m), vals.skip(m)),
        ) == content(keys, vals),
{
    let left_keys = keys.take(m);
    let right_keys = keys.skip(m);
    let left = content(left_keys, vals.take(m));
    let right = content(right_keys, vals.skip(m));
    let all = content(keys, vals);
    lemma_sorted_subrange(keys, 0, m);
    lemma_sorted_subrange(keys, m, keys.len() as int);
    assert(left_keys =~= keys.subrange(0, m));
    assert(right_keys =~= keys.subrange(m, keys.len() as int));
    assert forall|k: Seq<u8>| !(left.contains_key(k) && right.contains_key(k)) by {
        if left.contains_key(k) && right.contains_key(k) {
            let i = left_keys.index_of(k);
            let j = right_keys.index_of(k);
            lemma_sorted_distinct(keys, i, m + j);
        }
    }
    let joined = left.union_prefer_right(right);
    assert forall|k: Seq<u8>| joined.contains_key(k) <==> all.contains_key(k) by {
        if left.contains_key(k) {
            let i = left_keys.index_of(k);
            assert(keys[i] == k);
        }
        if right.contains_key(k) {
            let j = right_keys.index_of(k);
            assert(keys[m + j] == k);
        }
        if all.contains_key(k) {
            let i = keys.index_of(k);
            if i < m {
                assert(left_keys[i] == k);
            } else {
                assert(right_keys[i - m] == k);
            }
        }
    }
    assert forall|k: Seq<u8>| joined.contains_key(k) implies joined[k] == all[k] by {
        if right.contains_key(k) {
            let j = right_keys.index_of(k);
            lemma_content_at(right_keys, vals.skip(m), j);
            lemma_content_at(keys, vals, m + j);
        } else {
            let i = left_keys.index_of(k);
            lemma_content_at(left_keys, vals.take(m), i);
            lemma_content_at(keys, vals, i);
        }
    }
    assert(joined =~= all);
}

/// The keys before the rank of `key` come before `key`, the others do not.
pub proof fn lemma_rank_splits(keys: Seq<Seq<u8>>, key: Seq<u8>)
    requires
        strictly_sorted(keys),
    ensures
        rank(keys, key) <= keys.len(),
        forall|i: int| 0 <= i < rank(keys, key) ==> lex_lt(#[trigger] keys[i], key),
        forall|i: int| rank(keys, key) <= i < keys.len() ==> !lex_lt(#[trigger] keys[i], key),
    decreases keys.len(),
{
    if keys.len() > 0 {
        let front = keys.drop_last();
        let n = front.len() as int;
        lemma_sorted_subrange(keys, 0, n);
        assert(front =~= keys.subrange(0, n));
        lemma_rank_splits(front, key);
        let r = rank(front, key) as int;
        if lex_lt(keys.last(), key) {
            assert forall|i: int| 0 <= i < n implies lex_lt(#[trigger] front[i], key) by {
                assert(lex_lt(keys[i], keys[n]));
                crate::order::lemma_lex_transitive(keys[i], keys[n], key);
            }
            if r < n {
                assert(!lex_lt(front[r], key));
            }
            assert(r == n);
            assert(rank(keys, key) == n + 1);
            assert forall|i: int| 0 <= i < n + 1 implies lex_lt(#[trigger] keys[i], key) by {
                if i < n {
                    assert(lex_lt(front[i], key));
                }
            }
        } else {
            assert(rank(keys, key) == r);
            assert forall|i: int| 0 <= i < r implies lex_lt(#[trigger] keys[i], key) by {
                assert(lex_lt(front[i], key));
            }
            assert forall|i: int| r <= i < keys.len() implies !lex_lt(#[trigger] keys[i], key) by {
                if i < n {
                    assert(!lex_lt(front[i], key));
                }
            }
        }
    }
}

/// A part of sorted keys is sorted.
pub proof fn lemma_sorted_subrange(keys: Seq<Seq<u8>>, from: int, to: int)
    requires
        strictly_sorted(keys),
        0 <= from <= to <= keys.len(),
    ensures
        strictly_sorted(keys.subrange(from, to)),
{
    let part = keys.subrange(from, to);
    assert forall|i: int, j: int| 0 <= i < j < part.len() implies lex_lt(
        #[trigger] part[i],
        #[trigger] part[j],
    ) by {
        assert(lex_lt(keys[from + i], keys[from + j]));
    }
}

/// Sorted keys stay sorted when a key is assigned.
pub proof fn lemma_keys_after_sorted(keys: Seq<Seq<u8>>, key: Seq<u8>, pos: int)
    requires
        strictly_sorted(keys),
        0 <= pos <= keys.len(),
        pos == rank(keys, key),
        forall|i: int| 0 <= i < pos ==> lex_lt(#[trigger] keys[i], key),
        forall|i: int| pos <= i < keys.len() ==> !lex_lt(#[trigger] keys[i], key),
    ensures
        strictly_sorted(keys_after(keys, key)),
{
    if !holds(keys, key) {
        let next = keys.insert(pos, key);
        assert forall|i: int, j: int| 0 <= i < j < next.len() implies lex_lt(
            #[trigger] next[i],
            #[trigger] next[j],
        ) by {
            if j < pos {
                assert(lex_lt(keys[i], keys[j]));
            } else if j == pos {
                assert(lex_lt(keys[i], key));
            } else if i == pos {
                lemma_lex_total(keys[j - 1], key);
                if j - 1 > pos {
                    assert(lex_lt(keys[pos], keys[j - 1]));
                    lemma_lex_total(keys[pos], key);
                    if keys[j - 1] == key {
                        assert(lex_lt(keys[pos], key));
                    }
                }
            } else if i < pos {
                assert(lex_lt(keys[i], keys[j - 1]));
            } else {
                assert(lex_lt(keys[i - 1], keys[j - 1]));
            }
        }
    }
}

/// A leaf: keys in strictly increasing order, and the value of each.
pub struct Leaf {
    /// The blob that the leaf was decoded from or packed into.
    pub data: Vec<u8>,
    pub keys: Vec<Buf>,
    pub vals: Vec<Buf>,
}

impl Leaf {
    /// The keys as byte strings.
    pub open spec fn keys_view(&self) -> Seq<Seq<u8>> {
        views(self.keys@)
    }

    /// The values as byte strings.
    pub open spec fn vals_view(&self) -> Seq<Seq<u8>> {
        views(self.vals@)
    }

    /// Every key has a value, and the keys increase strictly.
    pub open spec fn wf(&self) -> bool {
        &&& self.keys@.len() == self.vals@.len()
        &&& strictly_sorted(self.keys_view())
    }

    /// The bytes that stand for the leaf in the store.
    pub open spec fn encoding(&self) -> Seq<u8> {
        leaf_encoding(self.keys_view(), self.vals_view())
    }

    /// Decoding inverts encoding: the encoding of a leaf in which every key
    /// has a value is decodable and holds the leaf's keys and values.
    pub proof fn lemma_roundtrip(&self)
        requires
            self.keys@.len() == self.vals@.len(),
        ensures
            leaf_decodable(self.encoding(), 0),
            leaf_keys_at(self.encoding(), 0) == self.keys_view(),
            leaf_vals_at(self.encoding(), 0) == self.vals_view(),
    {
        let empty = Seq::<u8>::empty();
        lemma_views_framable(self.keys@);
        lemma_views_framable(self.vals@);
        assert(self.keys@.len() == self.keys.len());
        crate::layout::lemma_leaf_roundtrip(empty, self.keys_view(), self.vals_view(), empty);
        assert(empty + self.encoding() + empty =~= self.encoding());
    }

    /// Appends the leaf's encoding.
    pub fn serialize(&self, wtr: &mut Vec<u8>) -> (r: Result<(), ErrorType>)
        ensures
            r is Ok,
            final(wtr)@ == old(wtr)@ + self.encoding(),
    {
        let keys = as_slices(&self.keys);
        let vals = as_slices(&self.vals);
        write_leaf(wtr, &keys, &vals);
        Ok(())
    }

    /// The leaf that `input` encodes, its keys and values windows of `input`.
    pub fn deserialize(input: Vec<u8>) -> (r: Result<Leaf, ErrorType>)
        ensures
            match r {
                Ok(leaf) => {
                    &&& leaf_decodable(input@, 0)
                    &&& leaf.data == input
                    &&& leaf.keys_view() == leaf_keys_at(input@, 0)
                    &&& leaf.vals_view() == leaf_vals_at(input@, 0)
                    &&& leaf.keys@.len() == leaf.vals@.len()
                    &&& all_shared(leaf.keys@)
                    &&& all_shared(leaf.vals@)
                },
                Err(e) => !leaf_decodable(input@, 0) && e == ErrorType::Serialization,
            },
    {
        Leaf::decode_from(input, 0)
    }

    /// The leaf that `input` encodes from `start` on.
    pub fn decode_from(input: Vec<u8>, start: usize) -> (r: Result<Leaf, ErrorType>)
        ensures
            match r {
                Ok(leaf) => {
                    &&& leaf_decodable(input@, start as int)
                    &&& leaf.data == input
                    &&& leaf.keys_view() == leaf_keys_at(input@, start as int)
                    &&& leaf.vals_view() == leaf_vals_at(input@, start as int)
                    &&& leaf.keys@.len() == leaf.vals@.len()
                    &&& all_shared(leaf.keys@)
                    &&& all_shared(leaf.vals@)
                },
                Err(e) => !leaf_decodable(input@, start as int) && e == ErrorType::Serialization,
            },
    {
        let (keys, vals) = match read_leaf(input.as_slice(), start) {
            Some((key_slices, val_slices)) => (to_shared(&key_slices), to_shared(&val_slices)),
            None => { return Err(ErrorType::Serialization); },
        };
        proof {
            assert(views(keys@).len() == keys@.len());
            assert(views(vals@).len() == vals@.len());
        }
        Ok(Leaf { data: input, keys: keys, vals: vals })
    }

    /// The value of `key`, if the leaf holds the key.
    pub fn get(&self, key: &[u8]) -> (r: Option<&[u8]>)
        requires
            self.wf(),
        ensures
            match r {
                Some(val) => exists|i: int|
                    0 <= i < self.keys@.len() && self.keys_view()[i] == key@ && val@
                        == self.vals_view()[i],
                None => forall|i: int| 0 <= i < self.keys@.len() ==> self.keys_view()[i] != key@,
            },
            match r {
                Some(val) => content(self.keys_view(), self.vals_view()).contains_key(key@)
                    && content(self.keys_view(), self.vals_view())[key@] == val@,
                None => !content(self.keys_view(), self.vals_view()).contains_key(key@),
            },
    {
        let pos = lower_bound(&self.keys, key);
        if pos < self.keys.len() && !crate::order::lex_less(key, self.keys[pos].bytes()) {
            proof {
                lemma_lex_total(self.keys_view()[pos as int], key@);
                lemma_content_at(self.keys_view(), self.vals_view(), pos as int);
            }
            Some(self.vals[pos].bytes())
        } else {
            proof {
                assert forall|i: int| 0 <= i < self.keys@.len() implies self.keys_view()[i]
                    != key@ by {
                    lemma_lex_total(self.keys@[i]@, key@);
                    if pos < self.keys@.len() {
                        lemma_lex_total(self.keys@[pos as int]@, key@);
                        if i > pos {
                            assert(lex_lt(self.keys_view()[pos as int], self.keys_view()[i]));
                            crate::order::lemma_lex_transitive(
                                key@,
                                self.keys@[pos as int]@,
                                self.keys@[i]@,
                            );
                        }
                    }
                }
            }
            None
        }
    }

    /// Parts the leaf at its median: the entries from the median on leave for
    /// a new leaf whose keys and values are windows of one packed blob.
    pub fn split(&mut self) -> (r: NewSibling)
        requires
            old(self).wf(),
            old(self).keys@.len() >= 1,
        ensures
            final(self).wf(),
            final(self).data == old(self).data,
            final(self).keys@ == old(self).keys@.take(old(self).keys@.len() as int / 2),
            final(self).vals@ == old(self).vals@.take(old(self).keys@.len() as int / 2),
            r.key@ == old(self).keys_view()[old(self).keys@.len() as int / 2],
            r.body is Leaf,
            r.body->Leaf_0.wf(),
            r.body->Leaf_0.keys_view() == old(self).keys_view().skip(
                old(self).keys@.len() as int / 2,
            ),
            r.body->Leaf_0.vals_view() == old(self).vals_view().skip(
                old(self).keys@.len() as int / 2,
            ),
            all_shared(r.body->Leaf_0.keys@),
            all_shared(r.body->Leaf_0.vals@),
            r.body->Leaf_0.data@ == concat(r.body->Leaf_0.keys_view()) + concat(
                r.body->Leaf_0.vals_view(),
            ),
    {
        let size: usize = self.keys.len();
        let split: usize = size / 2;
        let right_keys = self.keys.split_off(split);
        let right_vals = self.vals.split_off(split);
        let key_slices = as_slices(&right_keys);
        let val_slices = as_slices(&right_vals);
        let mut sib_data: Vec<u8> = Vec::new();
        put_chunks(&mut sib_data, &key_slices);
        put_chunks(&mut sib_data, &val_slices);
        let sib_keys = to_shared(&key_slices);
        let sib_vals = to_shared(&val_slices);
        let key = sib_keys[0].to_vec();
        proof {
            let all = old(self).keys_view();
            lemma_sorted_subrange(all, 0, split as int);
            lemma_sorted_subrange(all, split as int, size as int);
            assert(views(self.keys@) =~= all.subrange(0, split as int));
            assert(views(sib_keys@) =~= all.skip(split as int));
            assert(views(sib_keys@)[0] == all[split as int]);
            assert(views(sib_vals@) =~= old(self).vals_view().skip(split as int));
            assert(all.skip(split as int) =~= all.subrange(split as int, size as int));
            assert(sib_data@ =~= concat(views(sib_keys@)) + concat(views(sib_vals@)));
        }
        let body = Leaf { data: sib_data, keys: sib_keys, vals: sib_vals };
        NewSibling { key: key, body: Body::Leaf(body) }
    }

    /// Assigns the message's data to its key: over the value that the key
    /// has, or as a new entry at the key's sorted place.
    pub fn upsert(&mut self, msg: Message)
        requires
            old(self).wf(),
        ensures
            final(self).wf(),
            final(self).data == old(self).data,
            final(self).keys_view() == keys_after(old(self).keys_view(), msg.key@),
            final(self).vals_view() == vals_after(
                old(self).keys_view(),
                old(self).vals_view(),
                msg.key@,
                msg.data@,
            ),
            content(final(self).keys_view(), final(self).vals_view()) == content(
                old(self).keys_view(),
                old(self).vals_view(),
            ).insert(msg.key@, msg.data@),
            holds(old(self).keys_view(), msg.key@) ==> {
                let pos = rank(old(self).keys_view(), msg.key@) as int;
                &&& final(self).keys@ == old(self).keys@
                &&& final(self).vals@.len() == old(self).vals@.len()
                &&& forall|i: int|
                    0 <= i < old(self).vals@.len() && i != pos ==> final(self).vals@[i] == old(
                        self,
                    ).vals@[i]
                &&& final(self).vals@[pos].is_shared() == stays_shared(
                    msg.data@,
                    old(self).vals@[pos].is_shared(),
                    old(self).vals@[pos]@.len(),
                )
            },
            !holds(old(self).keys_view(), msg.key@) ==> {
                let pos = rank(old(self).keys_view(), msg.key@) as int;
                &&& final(self).keys@ == old(self).keys@.insert(pos, Buf::Owned(msg.key))
                &&& final(self).vals@ == old(self).vals@.insert(pos, Buf::Owned(msg.data))
            },
    {
        let pos = lower_bound(&self.keys, msg.key.as_slice());
        let ghost keys0 = self.keys_view();
        let ghost vals0 = self.vals_view();
        proof {
            assert forall|i: int| 0 <= i < pos implies lex_lt(#[trigger] keys0[i], msg.key@) by {
                assert(lex_lt(self.keys@[i]@, msg.key@));
            }
            assert forall|i: int| pos <= i < keys0.len() implies !lex_lt(
                #[trigger] keys0[i],
                msg.key@,
            ) by {
                assert(!lex_lt(self.keys@[i]@, msg.key@));
            }
            lemma_keys_after_sorted(keys0, msg.key@, pos as int);
            lemma_assign_content(keys0, vals0, msg.key@, msg.data@);
        }
        let hit = pos < self.keys.len() && !crate::order::lex_less(
            msg.key.as_slice(),
            self.keys[pos].bytes(),
        );
        proof {
            if pos < self.keys@.len() {
                lemma_lex_total(keys0[pos as int], msg.key@);
            }
        }
        if hit {
            msg.apply(&mut self.vals[pos]);
            proof {
                assert(views(self.vals@) =~= vals0.update(pos as int, msg.data@));
            }
        } else {
            let (key, val) = msg.create();
            self.keys.insert(pos, Buf::Owned(key));
            self.vals.insert(pos, Buf::Owned(val));
            proof {
                assert(views(self.keys@) =~= keys0.insert(pos as int, msg.key@));
                assert(views(self.vals@) =~= vals0.insert(pos as int, msg.data@));
            }
        }
    }

    /// Assigns one message, then splits the leaf if it has reached the limit.
    pub fn upsert_msg(&mut self, tree: &mut Tree, msg: Message) -> (r: Option<NewSibling>)
        requires
            old(self).wf(),
            old(tree).wf(),
        ensures
            *final(tree) == *old(tree),
            final(self).wf(),
            final(self).data == old(self).data,
            Leaf::settled(
                keys_after(old(self).keys_view(), msg.key@),
                vals_after(old(self).keys_view(), old(self).vals_view(), msg.key@, msg.data@),
                old(tree).leaf_limit(),
                *final(self),
                r,
            ),
    {
        self.upsert(msg);
        if self.keys.len() < tree.max_pivots + tree.max_buffer {
            None
        } else {
            let ghost keys = self.keys_view();
            let ghost vals = self.vals_view();
            let sibling = self.split();
            proof {
                let m = keys.len() as int / 2;
                assert(self.keys_view() =~= keys.take(m));
                assert(self.vals_view() =~= vals.take(m));
            }
            Some(sibling)
        }
    }

    /// Assigns the messages in order, then splits the leaf if it has reached
    /// the limit.
    pub fn upsert_msgs(&mut self, tree: &mut Tree, msgs: Vec<Message>) -> (r: Option<NewSibling>)
        requires
            old(self).wf(),
            old(tree).wf(),
        ensures
            *final(tree) == *old(tree),
            final(self).wf(),
            final(self).data == old(self).data,
            Leaf::settled(
                keys_after_all(old(self).keys_view(), msg_views(msgs@)),
                vals_after_all(old(self).keys_view(), old(self).vals_view(), msg_views(msgs@)),
                old(tree).leaf_limit(),
                *final(self),
                r,
            ),
    {
        let ghost batch = msg_views(msgs@);
        let ghost keys0 = self.keys_view();
        let ghost vals0 = self.vals_view();
        let count: usize = msgs.len();
        let mut rest = reversed(msgs);
        let mut done: usize = 0;
        assert(batch.take(0) =~= Seq::<MsgView>::empty());
        while done < count
            invariant
                0 <= done <= count,
                count == batch.len(),
                rest@.len() == count - done,
                forall|j: int|
                    0 <= j < rest@.len() ==> (#[trigger] rest@[j])@ == batch[count - 1 - j],
                self.wf(),
                self.data == old(self).data,
                self.keys_view() == keys_after_all(keys0, batch.take(done as int)),
                self.vals_view() == vals_after_all(keys0, vals0, batch.take(done as int)),
            decreases count - done,
        {
            let msg = rest.pop().unwrap();
            proof {
                assert(batch.take(done + 1).drop_last() =~= batch.take(done as int));
                assert(batch.take(done + 1).last() == batch[done as int]);
                assert(msg@ == batch[done as int]);
            }
            self.upsert(msg);
            done += 1;
        }
        assert(batch.take(count as int) =~= batch);
        if self.keys.len() < tree.max_pivots + tree.max_buffer {
            None
        } else {
            let ghost keys = self.keys_view();
            let ghost vals = self.vals_view();
            let sibling = self.split();
            proof {
                let m = keys.len() as int / 2;
                assert(self.keys_view() =~= keys.take(m));
                assert(self.vals_view() =~= vals.take(m));
            }
            Some(sibling)
        }
    }

    /// How a leaf that has come to hold `keys` and `vals` is left: as it is
    /// while it is under the limit, else parted at its median, the right half
    /// handed out with the key that it begins with.
    pub open spec fn settled(
        keys: Seq<Seq<u8>>,
        vals: Seq<Seq<u8>>,
        limit: int,
        left: Leaf,
        sibling: Option<NewSibling>,
    ) -> bool {
        if keys.len() < limit {
            &&& sibling is None
            &&& left.keys_view() == keys
            &&& left.vals_view() == vals
        } else {
            let m = keys.len() as int / 2;
            &&& sibling is Some
            &&& left.keys_view() == keys.take(m)
            &&& left.vals_view() == vals.take(m)
            &&& sibling->0.key@ == keys[m]
            &&& sibling->0.body is Leaf
            &&& sibling->0.body->Leaf_0.wf()
            &&& sibling->0.body->Leaf_0.keys_view() == keys.skip(m)
            &&& sibling->0.body->Leaf_0.vals_view() == vals.skip(m)
            &&& all_shared(sibling->0.body->Leaf_0.keys@)
            &&& all_shared(sibling->0.body->Leaf_0.vals@)
        }
    }

    /// Whether the leaf holds what a leaf must hold.
    pub fn check(&self) -> (r: bool)
        ensures
            r == self.wf(),
    {
        self.keys.len() == self.vals.len() && crate::search::sorted_keys(&self.keys)
    }
}

} // verus!
