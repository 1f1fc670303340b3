//! Messages: the mutations that travel down the tree.

use crate::buf::Buf;
use crate::codec::slices_view;
use crate::operation::Operation;
use crate::util::reversed;
use vstd::prelude::*;
use vstd::slice::slice_to_vec;

verus! {

/// What a message says: the operation, the key and the data.
pub struct MsgView {
    pub op: Operation,
    pub key: Seq<u8>,
    pub data: Seq<u8>,
}

/// What the messages say, in order.
pub open spec fn msg_views(msgs: Seq<Message>) -> Seq<MsgView> {
    Seq::new(msgs.len(), |i: int| msgs[i]@)
}

/// What the buffered messages say, in order.
pub open spec fn buf_views(msgs: Seq<BufMessage>) -> Seq<MsgView> {
    Seq::new(msgs.len(), |i: int| msgs[i]@)
}

/// The keys of the messages, in order.
pub open spec fn keys_of(msgs: Seq<MsgView>) -> Seq<Seq<u8>> {
    Seq::new(msgs.len(), |i: int| msgs[i].key)
}

/// The data of the messages, in order.
pub open spec fn data_of(msgs: Seq<MsgView>) -> Seq<Seq<u8>> {
    Seq::new(msgs.len(), |i: int| msgs[i].data)
}

/// The operation codes of the messages, in order.
pub open spec fn codes_of(msgs: Seq<MsgView>) -> Seq<u32> {
    Seq::new(msgs.len(), |i: int| msgs[i].op.code())
}

/// Whether a slot is still a window after `data` was assigned to it: it must
/// have been one, of the length of `data`, so that the bytes were written in
/// place.
pub open spec fn stays_shared(data: Seq<u8>, was_shared: bool, old_len: nat) -> bool {
    was_shared && old_len == data.len()
}

/// Assigning the same data twice leaves what assigning it once leaves: the
/// same bytes, in the same kind of slot. A slot that is a window after the
/// first assignment is written in place by the second.
pub proof fn lemma_assign_idempotent(data: Seq<u8>, was_shared: bool, old_len: nat)
    ensures
        stays_shared(data, stays_shared(data, was_shared, old_len), data.len()) == stays_shared(
            data,
            was_shared,
            old_len,
        ),
{
}

/// Assigns `data` to the slot: in place where the slot is a window of the
/// same length, else by replacing it with bytes of its own.
pub fn assign(data: &[u8], buf: &mut Buf)
    ensures
        final(buf)@ == data@,
        final(buf).is_shared() == stays_shared(data@, old(buf).is_shared(), old(buf)@.len()),
{
    match buf {
        Buf::Shared(val) => {
            if val.len() == data.len() {
                val.clear();
                val.extend_from_slice(data);
                return;
            }
        },
        Buf::Owned(_) => {},
    }
    *buf = Buf::Owned(slice_to_vec(data));
}

/// A message with bytes of its own.
#[derive(Debug)]
pub struct Message {
    pub op: Operation,
    pub key: Vec<u8>,
    pub data: Vec<u8>,
}

impl View for Message {
    type V = MsgView;

    open spec fn view(&self) -> MsgView {
        MsgView { op: self.op, key: self.key@, data: self.data@ }
    }
}

impl View for BufMessage {
    type V = MsgView;

    open spec fn view(&self) -> MsgView {
        MsgView { op: self.op, key: self.key@, data: self.data@ }
    }
}

impl Message {
    /// The key and the value that the message gives a leaf without the key.
    pub fn create(self) -> (r: (Vec<u8>, Vec<u8>))
        ensures
            r.0 == self.key,
            r.1 == self.data,
    {
        match self.op {
            Operation::Assign => (self.key, self.data),
        }
    }

    fn apply_assign(self, buf: &mut Buf)
        ensures
            final(buf)@ == self.data@,
            final(buf).is_shared() == stays_shared(
                self.data@,
                old(buf).is_shared(),
                old(buf)@.len(),
            ),
    {
        assign(self.data.as_slice(), buf);
    }

    /// Applies the message to the value slot of its key.
    pub fn apply(self, buf: &mut Buf)
        ensures
            final(buf)@ == self.data@,
            final(buf).is_shared() == stays_shared(
                self.data@,
                old(buf).is_shared(),
                old(buf)@.len(),
            ),
    {
        match self.op {
            Operation::Assign => self.apply_assign(buf),
        }
    }

    /// The message as an internal node buffers it.
    pub fn into_buf_message(self) -> (r: BufMessage)
        ensures
            r@ == self@,
            r.op == self.op,
            r.key == Buf::Owned(self.key),
            r.data == Buf::Owned(self.data),
    {
        BufMessage { op: self.op, key: Buf::Owned(self.key), data: Buf::Owned(self.data) }
    }
}

/// A message as an internal node holds it.
#[derive(Debug)]
pub struct BufMessage {
    pub op: Operation,
    pub key: Buf,
    pub data: Buf,
}

impl BufMessage {
    fn apply_assign(&self, buf: &mut Buf)
        ensures
            final(buf)@ == self.data@,
            final(buf).is_shared() == stays_shared(
                self.data@,
                old(buf).is_shared(),
                old(buf)@.len(),
            ),
    {
        assign(self.data.bytes(), buf);
    }

    /// Applies the message to the value slot of its key.
    pub fn apply(&self, buf: &mut Buf)
        ensures
            final(buf)@ == self.data@,
            final(buf).is_shared() == stays_shared(
                self.data@,
                old(buf).is_shared(),
                old(buf)@.len(),
            ),
    {
        match self.op {
            Operation::Assign => self.apply_assign(buf),
        }
    }

    /// The message with bytes of its own.
    pub fn into_message(self) -> (r: Message)
        ensures
            r@ == self@,
    {
        let key = match self.key {
            Buf::Shared(val) => val,
            Buf::Owned(val) => val,
        };
        let data = match self.data {
            Buf::Shared(val) => val,
            Buf::Owned(val) => val,
        };
        Message { op: self.op, key: key, data: data }
    }
}

/// The buffered messages as messages with bytes of their own.
pub fn into_messages(msgs: Vec<BufMessage>) -> (r: Vec<Message>)
    ensures
        msg_views(r@) == buf_views(msgs@),
{
    let ghost all = buf_views(msgs@);
    let count: usize = msgs.len();
    let mut rest = reversed(msgs);
    let mut out: Vec<Message> = Vec::new();
    while out.len() < count
        invariant
            out@.len() <= count,
            count == all.len(),
            rest@.len() == count - out@.len(),
            forall|j: int| 0 <= j < rest@.len() ==> (#[trigger] rest@[j])@ == all[count - 1 - j],
            forall|j: int| 0 <= j < out@.len() ==> (#[trigger] out@[j])@ == all[j],
        decreases count - out@.len(),
    {
        let msg = rest.pop().unwrap();
        out.push(msg.into_message());
    }
    assert(msg_views(out@) =~= all);
    out
}

/// The keys of the buffered messages, borrowed.
pub fn key_slices(msgs: &Vec<BufMessage>) -> (r: Vec<&[u8]>)
    ensures
        slices_view(r@) == keys_of(buf_views(msgs@)),
{
    let mut out: Vec<&[u8]> = Vec::new();
    let mut i: usize = 0;
    while i < msgs.len()
        invariant
            0 <= i <= msgs@.len(),
            out@.len() == i,
            forall|j: int| 0 <= j < i ==> (#[trigger] out@[j])@ == msgs@[j].key@,
        decreases msgs@.len() - i,
    {
        out.push(msgs[i].key.bytes());
        i += 1;
    }
    assert(slices_view(out@) =~= keys_of(buf_views(msgs@)));
    out
}

/// The data of the buffered messages, borrowed.
pub fn data_slices(msgs: &Vec<BufMessage>) -> (r: Vec<&[u8]>)
    ensures
        slices_view(r@) == data_of(buf_views(msgs@)),
{
    let mut out: Vec<&[u8]> = Vec::new();
    let mut i: usize = 0;
    while i < msgs.len()
        invariant
            0 <= i <= msgs@.len(),
            out@.len() == i,
            forall|j: int| 0 <= j < i ==> (#[trigger] out@[j])@ == msgs@[j].data@,
        decreases msgs@.len() - i,
    {
        out.push(msgs[i].data.bytes());
        i += 1;
    }
    assert(slices_view(out@) =~= data_of(buf_views(msgs@)));
    out
}

/// The operation codes of the buffered messages.
pub fn op_codes(msgs: &Vec<BufMessage>) -> (r: Vec<u32>)
    ensures
        r@ == codes_of(buf_views(msgs@)),
{
    let mut out: Vec<u32> = Vec::new();
    let mut i: usize = 0;
    while i < msgs.len()
        invariant
            0 <= i <= msgs@.len(),
            out@.len() == i,
            forall|j: int| 0 <= j < i ==> #[trigger] out@[j] == msgs@[j].op.code(),
        decreases msgs@.len() - i,
    {
        out.push(msgs[i].op.serialize());
        i += 1;
    }
    assert(out@ =~= codes_of(buf_views(msgs@)));
    out
}

/// Messages with the given codes, keys and data, held as windows.
pub fn shared_messages(codes: &Vec<u32>, keys: &Vec<&[u8]>, data: &Vec<&[u8]>) -> (r: Vec<
    BufMessage,
>)
    requires
        codes@.len() == keys@.len(),
        codes@.len() == data@.len(),
        forall|i: int| 0 <= i < codes@.len() ==> Operation::known(#[trigger] codes@[i]),
    ensures
        codes_of(buf_views(r@)) == codes@,
        keys_of(buf_views(r@)) == slices_view(keys@),
        data_of(buf_views(r@)) == slices_view(data@),
        forall|i: int|
            0 <= i < r@.len() ==> (#[trigger] r@[i]).key.is_shared() && r@[i].data.is_shared(),
{
    let mut out: Vec<BufMessage> = Vec::new();
    let mut i: usize = 0;
    while i < codes.len()
        invariant
            0 <= i <= codes@.len(),
            codes@.len() == keys@.len(),
            codes@.len() == data@.len(),
            forall|j: int| 0 <= j < codes@.len() ==> Operation::known(#[trigger] codes@[j]),
            out@.len() == i,
            forall|j: int|
                0 <= j < i ==> {
                    &&& (#[trigger] out@[j]).op.code() == codes@[j]
                    &&& out@[j].key@ == keys@[j]@
                    &&& out@[j].data@ == data@[j]@
                    &&& out@[j].key.is_shared()
                    &&& out@[j].data.is_shared()
                },
        decreases codes@.len() - i,
    {
        let msg = BufMessage {
            op: Operation::deserialize(codes[i]),
            key: Buf::Shared(slice_to_vec(keys[i])),
            data: Buf::Shared(slice_to_vec(data[i])),
        };
        out.push(msg);
        i += 1;
    }
    proof {
        assert(codes_of(buf_views(out@)) =~= codes@);
        assert(keys_of(buf_views(out@)) =~= slices_view(keys@));
        assert(data_of(buf_views(out@)) =~= slices_view(data@));
    }
    out
}

} // verus!
