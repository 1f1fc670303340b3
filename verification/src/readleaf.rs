//! A leaf that is only read: its keys and values are windows of the bytes
//! that it was decoded from.

use crate::codec::{lemma_slices_framable, slices_view};
use crate::error::ErrorType;
use crate::layout::{
    leaf_decodable, leaf_encoding, leaf_keys_at, leaf_vals_at, read_leaf, write_leaf,
};
use vstd::prelude::*;

verus! {

/// A leaf whose keys and values are borrowed from the bytes it was read from.
pub struct ReadLeaf<'a> {
    /// The bytes that the leaf was decoded from.
    pub data: &'a [u8],
    pub keys: Vec<&'a [u8]>,
    pub vals: Vec<&'a [u8]>,
}

impl<'a> ReadLeaf<'a> {
    /// The keys as byte strings.
    pub open spec fn keys_view(&self) -> Seq<Seq<u8>> {
        slices_view(self.keys@)
    }

    /// The values as byte strings.
    pub open spec fn vals_view(&self) -> Seq<Seq<u8>> {
        slices_view(self.vals@)
    }

    /// The bytes that stand for the leaf in the store.
    pub open spec fn encoding(&self) -> Seq<u8> {
        leaf_encoding(self.keys_view(), self.vals_view())
    }

    /// Decoding inverts encoding: the encoding of a leaf in which every key
    /// has a value is decodable and holds the leaf's keys and values.
    pub proof fn lemma_roundtrip(&self)
        requires
            self.keys@.len() == self.vals@.len(),
        ensures
            leaf_decodable(self.encoding(), 0),
            leaf_keys_at(self.encoding(), 0) == self.keys_view(),
            leaf_vals_at(self.encoding(), 0) == self.vals_view(),
    {
        let empty = Seq::<u8>::empty();
        lemma_slices_framable(self.keys@);
        lemma_slices_framable(self.vals@);
        assert(self.keys@.len() == self.keys.len());
        crate::layout::lemma_leaf_roundtrip(empty, self.keys_view(), self.vals_view(), empty);
        assert(empty + self.encoding() + empty =~= self.encoding());
    }

    /// Appends the leaf's encoding, and gives the number of bytes appended.
    pub fn serialize(&self, wtr: &mut Vec<u8>) -> (r: Result<usize, ErrorType>)
        ensures
            r == Ok::<usize, ErrorType>(self.encoding().len() as usize),
            final(wtr)@ == old(wtr)@ + self.encoding(),
    {
        let before: usize = wtr.len();
        write_leaf(wtr, &self.keys, &self.vals);
        Ok(wtr.len() - before)
    }

    /// The leaf that `input` encodes, its keys and values windows of `input`.
    pub fn deserialize(input: &'a [u8]) -> (r: Result<ReadLeaf<'a>, ErrorType>)
        ensures
            match r {
                Ok(leaf) => {
                    &&& leaf_decodable(input@, 0)
                    &&& leaf.data@ == input@
                    &&& leaf.keys_view() == leaf_keys_at(input@, 0)
                    &&& leaf.vals_view() == leaf_vals_at(input@, 0)
                    &&& leaf.keys@.len() == leaf.vals@.len()
                },
                Err(e) => !leaf_decodable(input@, 0) && e == ErrorType::Serialization,
            },
    {
        match read_leaf(input, 0) {
            Some((keys, vals)) => {
                proof {
                    assert(slices_view(keys@).len() == keys@.len());
                    assert(slices_view(vals@).len() == vals@.len());
                }
                Ok(ReadLeaf { data: input, keys: keys, vals: vals })
            },
            None => Err(ErrorType::Serialization),
        }
    }
}

} // verus!
