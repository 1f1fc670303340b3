//! The scope of one batch of writes.

use vstd::prelude::*;

verus! {

/// The epoch of a batch of writes, and the nodes that it has superseded:
/// their ids are handed to the store for deletion when the batch ends.
#[derive(Debug)]
pub struct Transaction {
    pub epoch: u64,
    pub delete: Vec<u64>,
}

impl Transaction {
    /// The transaction is `before` with more nodes superseded.
    pub open spec fn grown_from(&self, before: &Transaction) -> bool {
        &&& self.epoch == before.epoch
        &&& before.delete@.len() <= self.delete@.len()
        &&& forall|i: int| 0 <= i < before.delete@.len() ==> #[trigger] self.delete@[i]
            == before.delete@[i]
    }
}

} // verus!
