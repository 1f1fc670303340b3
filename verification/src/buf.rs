//! The byte carrier for keys, values and message payloads.

use crate::codec::slices_view;
use vstd::prelude::*;
use vstd::slice::slice_to_vec;

verus! {

/// A byte string that is either a window into the blob of the node that holds
/// it, or bytes of its own. A window never changes its length: it is written
/// in place or replaced by owned bytes.
#[derive(Debug)]
pub enum Buf {
    Shared(Vec<u8>),
    Owned(Vec<u8>),
}

impl View for Buf {
    type V = Seq<u8>;

    open spec fn view(&self) -> Seq<u8> {
        match self {
            Buf::Shared(val) => val@,
            Buf::Owned(val) => val@,
        }
    }
}

impl Buf {
    /// The value is a window into a blob.
    pub open spec fn is_shared(&self) -> bool {
        self is Shared
    }

    /// The number of bytes.
    pub fn len(&self) -> (r: usize)
        ensures
            r == self@.len(),
    {
        match self {
            Buf::Shared(val) => val.len(),
            Buf::Owned(val) => val.len(),
        }
    }

    /// Whether there are no bytes.
    pub fn is_empty(&self) -> (r: bool)
        ensures
            r == (self@.len() == 0),
    {
        match self {
            Buf::Shared(val) => val.len() == 0,
            Buf::Owned(val) => val.len() == 0,
        }
    }

    /// A copy of the bytes.
    pub fn to_vec(&self) -> (r: Vec<u8>)
        ensures
            r@ == self@,
    {
        match self {
            Buf::Shared(val) => slice_to_vec(val.as_slice()),
            Buf::Owned(val) => slice_to_vec(val.as_slice()),
        }
    }

    /// The bytes.
    pub fn bytes(&self) -> (r: &[u8])
        ensures
            r@ == self@,
    {
        match self {
            Buf::Shared(val) => val.as_slice(),
            Buf::Owned(val) => val.as_slice(),
        }
    }
}

/// The byte strings that a vector of carriers holds, in order.
pub open spec fn views(bufs: Seq<Buf>) -> Seq<Seq<u8>> {
    Seq::new(bufs.len(), |i: int| bufs[i]@)
}

/// Every carrier is a window.
pub open spec fn all_shared(bufs: Seq<Buf>) -> bool {
    forall|i: int| 0 <= i < bufs.len() ==> (#[trigger] bufs[i]).is_shared()
}

/// The byte strings of the carriers, borrowed.
pub fn as_slices(bufs: &Vec<Buf>) -> (r: Vec<&[u8]>)
    ensures
        slices_view(r@) == views(bufs@),
{
    let mut out: Vec<&[u8]> = Vec::new();
    let mut i: usize = 0;
    while i < bufs.len()
        invariant
            0 <= i <= bufs@.len(),
            out@.len() == i,
            forall|j: int| 0 <= j < i ==> (#[trigger] out@[j])@ == bufs@[j]@,
        decreases bufs@.len() - i,
    {
        out.push(bufs[i].bytes());
        i += 1;
    }
    assert(slices_view(out@) =~= views(bufs@));
    out
}

/// Windows that hold the given byte strings.
pub fn to_shared(slices: &Vec<&[u8]>) -> (r: Vec<Buf>)
    ensures
        views(r@) == slices_view(slices@),
        all_shared(r@),
{
    let mut out: Vec<Buf> = Vec::new();
    let mut i: usize = 0;
    while i < slices.len()
        invariant
            0 <= i <= slices@.len(),
            out@.len() == i,
            all_shared(out@),
            forall|j: int| 0 <= j < i ==> (#[trigger] out@[j])@ == slices@[j]@,
        decreases slices@.len() - i,
    {
        out.push(Buf::Shared(slice_to_vec(slices[i])));
        i += 1;
    }
    assert(views(out@) =~= slices_view(slices@));
    out
}

/// Byte strings held in carriers have lengths that fit a 64-bit integer.
pub proof fn lemma_views_framable(bufs: Seq<Buf>)
    ensures
        crate::codec::framable(views(bufs)),
{
    assert forall|i: int| 0 <= i < bufs.len() implies (#[trigger] views(bufs)[i]).len()
        <= u64::MAX by {
        match bufs[i] {
            Buf::Shared(val) => {
                assert(val@.len() == val.len());
            },
            Buf::Owned(val) => {
                assert(val@.len() == val.len());
            },
        }
    }
}

} // verus!
