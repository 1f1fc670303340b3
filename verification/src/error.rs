//! What can go wrong in the index.

use vstd::prelude::*;

verus! {

/// The kinds of failure of a store.
#[derive(Debug, Copy, Clone, PartialEq, Eq, Structural)]
pub enum IoKind {
    NotFound,
    Permission,
    Device,
}

/// What went wrong.
#[derive(Debug, Copy, Clone, PartialEq, Eq, Structural)]
pub enum ErrorType {
    /// A transaction was begun while the previous one was open.
    TxnAlreadyOpen,
    /// A transaction was ended while none was open.
    TxnClosed,
    /// A transaction was ended whose epoch is not the tree's.
    TxnMismatch,
    /// The bytes are not the encoding of a node, or the nodes read do not
    /// fit together.
    Serialization,
    /// No node id or level is left to give out.
    Exhausted,
    /// The store failed.
    IO(IoKind),
}

} // verus!
