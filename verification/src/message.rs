//! Messages in view form, whose key and data may be windows of a blob, and
//! in owned form.

use crate::buf::Buf;
use crate::index::message::{assign, MsgView, stays_shared};
use crate::operation::Operation;
use vstd::prelude::*;

verus! {

/// A message whose key and data may be windows of a blob.
#[derive(Debug)]
pub struct Message {
    pub op: Operation,
    pub key: Buf,
    pub data: Buf,
}

impl View for Message {
    type V = MsgView;

    open spec fn view(&self) -> MsgView {
        MsgView { op: self.op, key: self.key@, data: self.data@ }
    }
}

impl Message {
    fn apply_assign(&self, buf: &mut Buf)
        ensures
            final(buf)@ == self.data@,
            final(buf).is_shared() == stays_shared(
                self.data@,
                old(buf).is_shared(),
                old(buf)@.len(),
            ),
    {
        assign(self.data.bytes(), buf);
    }

    /// Applies the message to the value slot of its key.
    pub fn apply(&self, buf: &mut Buf)
        ensures
            final(buf)@ == self.data@,
            final(buf).is_shared() == stays_shared(
                self.data@,
                old(buf).is_shared(),
                old(buf)@.len(),
            ),
    {
        match self.op {
            Operation::Assign => self.apply_assign(buf),
        }
    }

    /// The message with bytes of its own.
    pub fn into_owned(self) -> (r: OwnedMessage)
        ensures
            r@ == self@,
    {
        let key = match self.key {
            Buf::Shared(val) => val,
            Buf::Owned(val) => val,
        };
        let data = match self.data {
            Buf::Shared(val) => val,
            Buf::Owned(val) => val,
        };
        OwnedMessage { op: self.op, key: key, data: data }
    }
}

/// A message with bytes of its own.
#[derive(Debug)]
pub struct OwnedMessage {
    pub op: Operation,
    pub key: Vec<u8>,
    pub data: Vec<u8>,
}

impl View for OwnedMessage {
    type V = MsgView;

    open spec fn view(&self) -> MsgView {
        MsgView { op: self.op, key: self.key@, data: self.data@ }
    }
}

impl OwnedMessage {
    /// The key and the value that the message gives a leaf without the key.
    pub fn create(self) -> (r: (Vec<u8>, Vec<u8>))
        ensures
            r.0 == self.key,
            r.1 == self.data,
    {
        match self.op {
            Operation::Assign => (self.key, self.data),
        }
    }

    fn apply_assign(self, buf: &mut Buf)
        ensures
            final(buf)@ == self.data@,
            final(buf).is_shared() == stays_shared(
                self.data@,
                old(buf).is_shared(),
                old(buf)@.len(),
            ),
    {
        assign(self.data.as_slice(), buf);
    }

    /// Applies the message to the value slot of its key.
    pub fn apply(self, buf: &mut Buf)
        ensures
            final(buf)@ == self.data@,
            final(buf).is_shared() == stays_shared(
                self.data@,
                old(buf).is_shared(),
                old(buf)@.len(),
            ),
    {
        match self.op {
            Operation::Assign => self.apply_assign(buf),
        }
    }

    /// The message in view form.
    pub fn into_message(self) -> (r: Message)
        ensures
            r@ == self@,
            r.key == Buf::Owned(self.key),
            r.data == Buf::Owned(self.data),
    {
        Message { op: self.op, key: Buf::Owned(self.key), data: Buf::Owned(self.data) }
    }
}

} // verus!
