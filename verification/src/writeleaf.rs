//! A leaf that is written: it carries its own id and epoch.

use crate::buf::{all_shared, as_slices, Buf, lemma_views_framable, to_shared, views};
use crate::codec::{get_u64, lemma_three, put_u64, u64_at};
use crate::error::ErrorType;
use crate::index::message::Message;
use crate::layout::{
    leaf_decodable, leaf_encoding, leaf_keys_at, leaf_vals_at, lemma_leaf_roundtrip, read_leaf,
    write_leaf,
};
use crate::leaf::{keys_after, Leaf, vals_after};
use crate::node::Body;
use crate::order::strictly_sorted;
use crate::ownmessage::OwnedMessage;
use crate::tree::WriteTree;
use vstd::bytes::{lemma_auto_spec_u64_to_from_le_bytes, spec_u64_to_le_bytes};
use vstd::prelude::*;
use vstd::slice::slice_to_vec;

verus! {

/// A leaf under the hand of the writer.
pub struct WriteLeaf {
    pub id: u64,
    /// The epoch of the transaction that last wrote the leaf.
    pub epoch: u64,
    /// The blob that the leaf was decoded from or packed into.
    pub data: Buf,
    pub keys: Vec<Buf>,
    pub vals: Vec<Buf>,
}

impl WriteLeaf {
    /// The keys as byte strings.
    pub open spec fn keys_view(&self) -> Seq<Seq<u8>> {
        views(self.keys@)
    }

    /// The values as byte strings.
    pub open spec fn vals_view(&self) -> Seq<Seq<u8>> {
        views(self.vals@)
    }

    /// Every key has a value, and the keys increase strictly.
    pub open spec fn wf(&self) -> bool {
        &&& self.keys@.len() == self.vals@.len()
        &&& strictly_sorted(self.keys_view())
    }

    /// The bytes that stand for the leaf in the store: id, epoch, and the
    /// layout of a leaf.
    pub open spec fn encoding(&self) -> Seq<u8> {
        spec_u64_to_le_bytes(self.id) + spec_u64_to_le_bytes(self.epoch) + leaf_encoding(
            self.keys_view(),
            self.vals_view(),
        )
    }

    /// `bytes` encode a leaf with its id and epoch.
    pub open spec fn decodable(bytes: Seq<u8>) -> bool {
        bytes.len() >= 16 && leaf_decodable(bytes, 16)
    }

    /// Decoding inverts encoding: the encoding of a leaf in which every key
    /// has a value is decodable and holds the leaf's id, epoch, keys and
    /// values.
    pub proof fn lemma_roundtrip(&self)
        requires
            self.keys@.len() == self.vals@.len(),
        ensures
            WriteLeaf::decodable(self.encoding()),
            u64_at(self.encoding(), 0) == self.id,
            u64_at(self.encoding(), 8) == self.epoch,
            leaf_keys_at(self.encoding(), 16) == self.keys_view(),
            leaf_vals_at(self.encoding(), 16) == self.vals_view(),
    {
        lemma_auto_spec_u64_to_from_le_bytes();
        let id = spec_u64_to_le_bytes(self.id);
        let epoch = spec_u64_to_le_bytes(self.epoch);
        let body = leaf_encoding(self.keys_view(), self.vals_view());
        let empty = Seq::<u8>::empty();
        let b = self.encoding();
        lemma_views_framable(self.keys@);
        lemma_views_framable(self.vals@);
        assert(self.keys@.len() == self.keys.len());
        lemma_three(id, epoch, body);
        assert(b.subrange(0, 8) =~= id);
        assert(b.subrange(8, 16) =~= epoch);
        lemma_leaf_roundtrip(id + epoch, self.keys_view(), self.vals_view(), empty);
        assert(id + epoch + body + empty =~= b);
    }

    /// Appends the leaf's encoding, and gives the number of bytes appended.
    pub fn serialize(&self, wtr: &mut Vec<u8>) -> (r: Result<usize, ErrorType>)
        ensures
            r == Ok::<usize, ErrorType>(self.encoding().len() as usize),
            final(wtr)@ == old(wtr)@ + self.encoding(),
    {
        let before: usize = wtr.len();
        put_u64(wtr, self.id);
        put_u64(wtr, self.epoch);
        let keys = as_slices(&self.keys);
        let vals = as_slices(&self.vals);
        write_leaf(wtr, &keys, &vals);
        assert(wtr@ =~= old(wtr)@ + self.encoding());
        Ok(wtr.len() - before)
    }

    /// The leaf that `input` encodes, its keys and values windows of `input`.
    pub fn deserialize(input: &[u8]) -> (r: Result<WriteLeaf, ErrorType>)
        ensures
            match r {
                Ok(leaf) => {
                    &&& WriteLeaf::decodable(input@)
                    &&& leaf.id == u64_at(input@, 0)
                    &&& leaf.epoch == u64_at(input@, 8)
                    &&& leaf.data@ == input@
                    &&& leaf.data.is_shared()
                    &&& leaf.keys_view() == leaf_keys_at(input@, 16)
                    &&& leaf.vals_view() == leaf_vals_at(input@, 16)
                    &&& leaf.keys@.len() == leaf.vals@.len()
                    &&& all_shared(leaf.keys@)
                    &&& all_shared(leaf.vals@)
                },
                Err(e) => !WriteLeaf::decodable(input@) && e == ErrorType::Serialization,
            },
    {
        if input.len() < 16 {
            return Err(ErrorType::Serialization);
        }
        let id = get_u64(input, 0).unwrap();
        let epoch = get_u64(input, 8).unwrap();
        match read_leaf(input, 16) {
            Some((key_slices, val_slices)) => {
                let keys = to_shared(&key_slices);
                let vals = to_shared(&val_slices);
                proof {
                    assert(views(keys@).len() == keys@.len());
                    assert(views(vals@).len() == vals@.len());
                }
                Ok(
                    WriteLeaf {
                        id: id,
                        epoch: epoch,
                        data: Buf::Shared(slice_to_vec(input)),
                        keys: keys,
                        vals: vals,
                    },
                )
            },
            None => Err(ErrorType::Serialization),
        }
    }

    /// The value of `key`, if the leaf holds the key.
    pub fn get(&self, key: &[u8]) -> (r: Option<&[u8]>)
        requires
            self.wf(),
        ensures
            match r {
                Some(val) => exists|i: int|
                    0 <= i < self.keys@.len() && self.keys_view()[i] == key@ && val@
                        == self.vals_view()[i],
                None => forall|i: int| 0 <= i < self.keys@.len() ==> self.keys_view()[i] != key@,
            },
            match r {
                Some(val) => crate::leaf::content(self.keys_view(), self.vals_view()).contains_key(key@)
                    && crate::leaf::content(self.keys_view(), self.vals_view())[key@] == val@,
                None => !crate::leaf::content(self.keys_view(), self.vals_view()).contains_key(key@),
            },
    {
        let pos = crate::search::lower_bound(&self.keys, key);
        if pos < self.keys.len() && !crate::order::lex_less(key, self.keys[pos].bytes()) {
            proof {
                crate::order::lemma_lex_total(self.keys_view()[pos as int], key@);
                crate::leaf::lemma_content_at(self.keys_view(), self.vals_view(), pos as int);
            }
            Some(self.vals[pos].bytes())
        } else {
            proof {
                assert forall|i: int| 0 <= i < self.keys@.len() implies self.keys_view()[i]
                    != key@ by {
                    crate::order::lemma_lex_total(self.keys@[i]@, key@);
                    if pos < self.keys@.len() {
                        crate::order::lemma_lex_total(self.keys@[pos as int]@, key@);
                        if i > pos {
                            assert(crate::order::lex_lt(
                                self.keys_view()[pos as int],
                                self.keys_view()[i],
                            ));
                            crate::order::lemma_lex_transitive(
                                key@,
                                self.keys@[pos as int]@,
                                self.keys@[i]@,
                            );
                        }
                    }
                }
            }
            None
        }
    }

    /// Parts the leaf at its median: the entries from the median on leave for
    /// a new leaf with a fresh id and the tree's epoch, whose keys and values
    /// are windows of one packed blob.
    pub fn split(&mut self, tree: &mut WriteTree) -> (r: WriteLeaf)
        requires
            old(self).wf(),
            old(self).keys@.len() >= 1,
            old(tree).id < u64::MAX,
        ensures
            final(self).wf(),
            final(self).id == old(self).id,
            final(self).epoch == old(self).epoch,
            final(self).data == old(self).data,
            final(self).keys@ == old(self).keys@.take(old(self).keys@.len() as int / 2),
            final(self).vals@ == old(self).vals@.take(old(self).keys@.len() as int / 2),
            *final(tree) == (WriteTree { id: (old(tree).id + 1) as u64, ..*old(tree) }),
            r.wf(),
            r.id == old(tree).id + 1,
            r.epoch == old(tree).epoch,
            r.keys_view() == old(self).keys_view().skip(old(self).keys@.len() as int / 2),
            r.vals_view() == old(self).vals_view().skip(old(self).keys@.len() as int / 2),
            all_shared(r.keys@),
            all_shared(r.vals@),
            r.data@ == crate::codec::concat(r.keys_view()) + crate::codec::concat(r.vals_view()),
    {
        let mut keys: Vec<Buf> = Vec::new();
        let mut vals: Vec<Buf> = Vec::new();
        core::mem::swap(&mut self.keys, &mut keys);
        core::mem::swap(&mut self.vals, &mut vals);
        let mut left = Leaf { data: Vec::new(), keys: keys, vals: vals };
        let sibling = left.split();
        self.keys = left.keys;
        self.vals = left.vals;
        let id = tree.next_id();
        match sibling.body {
            Body::Leaf(right) => WriteLeaf {
                id: id,
                epoch: tree.epoch,
                data: Buf::Owned(right.data),
                keys: right.keys,
                vals: right.vals,
            },
            Body::Internal(_) => vstd::pervasive::unreached(),
        }
    }

    /// Assigns the message's data to its key, then splits the leaf if it has
    /// reached the limit.
    pub fn upsert_owned(&mut self, tree: &mut WriteTree, msg: OwnedMessage) -> (r: Option<
        WriteLeaf,
    >)
        requires
            old(self).wf(),
            old(tree).wf(),
            keys_after(old(self).keys_view(), msg.key@).len() >= old(tree).leaf_limit() ==> old(
                tree,
            ).id < u64::MAX,
        ensures
            final(self).wf(),
            final(self).id == old(self).id,
            final(self).epoch == old(self).epoch,
            final(self).data == old(self).data,
            final(tree).moved_from(old(tree)),
            WriteLeaf::settled(
                keys_after(old(self).keys_view(), msg.key@),
                vals_after(old(self).keys_view(), old(self).vals_view(), msg.key@, msg.data@),
                *old(tree),
                *final(tree),
                *final(self),
                r,
            ),
    {
        let mut keys: Vec<Buf> = Vec::new();
        let mut vals: Vec<Buf> = Vec::new();
        core::mem::swap(&mut self.keys, &mut keys);
        core::mem::swap(&mut self.vals, &mut vals);
        let mut leaf = Leaf { data: Vec::new(), keys: keys, vals: vals };
        leaf.upsert(Message { op: msg.op, key: msg.key, data: msg.data });
        self.keys = leaf.keys;
        self.vals = leaf.vals;
        if self.keys.len() < tree.max_pivots + tree.max_buffer {
            None
        } else {
            let ghost keys1 = self.keys_view();
            let ghost vals1 = self.vals_view();
            let sibling = self.split(tree);
            proof {
                let m = keys1.len() as int / 2;
                assert(self.keys_view() =~= keys1.take(m));
                assert(self.vals_view() =~= vals1.take(m));
            }
            Some(sibling)
        }
    }

    /// How a leaf that has come to hold `keys` and `vals` is left: as it is
    /// while it is under the limit, else parted at its median, the right half
    /// handed out under a fresh id.
    pub open spec fn settled(
        keys: Seq<Seq<u8>>,
        vals: Seq<Seq<u8>>,
        tree0: WriteTree,
        tree1: WriteTree,
        left: WriteLeaf,
        sibling: Option<WriteLeaf>,
    ) -> bool {
        if keys.len() < tree0.leaf_limit() {
            &&& sibling is None
            &&& tree1 == tree0
            &&& left.keys_view() == keys
            &&& left.vals_view() == vals
        } else {
            let m = keys.len() as int / 2;
            &&& sibling is Some
            &&& tree1.id == tree0.id + 1
            &&& left.keys_view() == keys.take(m)
            &&& left.vals_view() == vals.take(m)
            &&& sibling->0.wf()
            &&& sibling->0.id == tree0.id + 1
            &&& sibling->0.epoch == tree0.epoch
            &&& sibling->0.keys_view() == keys.skip(m)
            &&& sibling->0.vals_view() == vals.skip(m)
            &&& all_shared(sibling->0.keys@)
            &&& all_shared(sibling->0.vals@)
        }
    }
}

} // verus!
