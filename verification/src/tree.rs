//! The root holder in two halves: one that writes, one that scans.

use crate::error::ErrorType;
use crate::index::store::{answers_since, first_failure, Store, StoreLog};
use crate::index::tree::{keep_first, refused, scanned, Tree, visited};
use crate::node::Node;
use crate::mode::Mode;
use crate::transaction::Transaction;
use vstd::prelude::*;

verus! {

/// The writing half: configuration, counters and the flag of the open
/// transaction.
pub struct WriteTree {
    /// The epoch of the last transaction begun.
    pub epoch: u64,
    /// The last node id issued.
    pub id: u64,
    pub max_pivots: usize,
    pub max_buffer: usize,
    /// A transaction is open.
    pub txn: bool,
}

/// The scanning half: the ids of the leaves, in key order, as they stood
/// when the list was taken.
pub struct ReadTree {
    pub rleafs: Vec<u64>,
}

impl ReadTree {
    /// A tree without leaves.
    pub fn new() -> (r: ReadTree)
        ensures
            r.rleafs@ == Seq::<u64>::empty(),
    {
        ReadTree { rleafs: Vec::new() }
    }

    /// Hands every key and value of every leaf to `scanner`, leaf by leaf in
    /// the order of the list of leaves, and within a leaf in key order.
    /// Stops at the first leaf that cannot be read or is no leaf.
    pub fn scan<S: Store, F: Fn(&[u8], &[u8])>(&self, store: &StoreLog<S>, scanner: F) -> (r: Result<
        (),
        ErrorType,
    >)
        requires
            forall|key: &[u8], val: &[u8]| scanner.requires((key, val)),
        ensures
            self.rleafs@.len() == 0 ==> r is Ok,
            scanned(store, self.rleafs@, &scanner, r),
    {
        let mut i: usize = 0;
        while i < self.rleafs.len()
            invariant
                0 <= i <= self.rleafs@.len(),
                forall|key: &[u8], val: &[u8]| scanner.requires((key, val)),
                forall|j: int| 0 <= j < i ==> visited(store, #[trigger] self.rleafs@[j], &scanner),
            decreases self.rleafs@.len() - i,
        {
            let loaded = store.read(self.rleafs[i]);
            let ghost seen = loaded;
            let node = match loaded {
                Ok(node) => node,
                Err(e) => {
                    assert(refused(store, self.rleafs@[i as int], e)) by {
                        assert(store.reads(self.rleafs@[i as int], seen));
                    }
                    return Err(e);
                },
            };
            match node.visit(&scanner) {
                Ok(()) => {
                    assert(visited(store, self.rleafs@[i as int], &scanner)) by {
                        assert(store.reads(self.rleafs@[i as int], Ok::<Node, ErrorType>(node)));
                    }
                },
                Err(e) => {
                    assert(refused(store, self.rleafs@[i as int], e)) by {
                        assert(store.reads(self.rleafs@[i as int], seen));
                    }
                    return Err(e);
                },
            }
            i += 1;
        }
        Ok(())
    }
}

impl WriteTree {
    /// The configuration is one that a tree can be made with.
    pub open spec fn wf(&self) -> bool {
        &&& self.max_pivots >= 1
        &&& self.max_buffer >= 1
        &&& self.max_pivots + self.max_buffer <= usize::MAX
    }

    /// The number of entries at which a leaf is split.
    pub open spec fn leaf_limit(&self) -> int {
        self.max_pivots + self.max_buffer
    }

    /// The tree is `before` with more ids issued.
    pub open spec fn moved_from(&self, before: &WriteTree) -> bool {
        &&& self.epoch == before.epoch
        &&& self.max_pivots == before.max_pivots
        &&& self.max_buffer == before.max_buffer
        &&& self.txn == before.txn
        &&& before.id <= self.id
    }

    /// A tree without nodes, in epoch 0. Both limits must be at least 1.
    pub fn new(max_pivots: usize, max_buffer: usize) -> (r: WriteTree)
        requires
            max_pivots >= 1,
            max_buffer >= 1,
            max_pivots + max_buffer <= usize::MAX,
        ensures
            r.wf(),
            r == (WriteTree {
                epoch: 0,
                id: 0,
                max_pivots: max_pivots,
                max_buffer: max_buffer,
                txn: false,
            }),
    {
        WriteTree { epoch: 0, id: 0, max_pivots: max_pivots, max_buffer: max_buffer, txn: false }
    }

    /// Opens a transaction in a new epoch, unless one is open.
    pub fn begin_txn(&mut self) -> (r: Result<Transaction, ErrorType>)
        requires
            !old(self).txn ==> old(self).epoch < u64::MAX,
        ensures
            match r {
                Ok(txn) => {
                    &&& !old(self).txn
                    &&& *final(self) == (WriteTree {
                        epoch: (old(self).epoch + 1) as u64,
                        txn: true,
                        ..*old(self)
                    })
                    &&& txn.epoch == final(self).epoch
                    &&& txn.delete@ == Seq::<u64>::empty()
                },
                Err(e) => {
                    &&& old(self).txn
                    &&& e == ErrorType::TxnAlreadyOpen
                    &&& *final(self) == *old(self)
                },
            },
    {
        if self.txn {
            Err(ErrorType::TxnAlreadyOpen)
        } else {
            self.epoch += 1;
            self.txn = true;
            Ok(Transaction { epoch: self.epoch, delete: Vec::new() })
        }
    }

    /// Asks the store to delete every node that the transaction has
    /// superseded. A failure does not stop the run: the first one is given
    /// back when every deletion has been asked for.
    fn close_txn<S: Store>(&mut self, store: &mut StoreLog<S>, txn: Transaction) -> (r: Option<
        ErrorType,
    >)
        ensures
            *final(self) == *old(self),
            final(store).scheduled() == old(store).scheduled() + txn.delete@,
            final(store).written() == old(store).written(),
            final(store).delete_answers().len() == old(store).delete_answers().len()
                + txn.delete@.len(),
            r == first_failure(answers_since(*old(store), *final(store))),
    {
        let mut first: Option<ErrorType> = None;
        let mut i: usize = 0;
        let ghost base = old(store).delete_answers().len() as int;
        assert(old(store).scheduled() + txn.delete@.take(0) =~= old(store).scheduled());
        assert(store.delete_answers().skip(base) =~= Seq::<Result<(), ErrorType>>::empty());
        while i < txn.delete.len()
            invariant
                0 <= i <= txn.delete@.len(),
                base == old(store).delete_answers().len(),
                store.scheduled() == old(store).scheduled() + txn.delete@.take(i as int),
                store.written() == old(store).written(),
                store.delete_answers().len() == base + i,
                first == first_failure(store.delete_answers().skip(base)),
            decreases txn.delete@.len() - i,
        {
            let ghost before = store.delete_answers();
            let answer = store.schedule_delete(txn.delete[i]);
            first = keep_first(first, answer);
            assert(old(store).scheduled() + txn.delete@.take(i + 1) =~= (old(store).scheduled()
                + txn.delete@.take(i as int)).push(txn.delete@[i as int]));
            assert(store.delete_answers().skip(base).drop_last() =~= before.skip(base));
            i += 1;
        }
        assert(txn.delete@.take(i as int) =~= txn.delete@);
        first
    }

    /// Ends the open transaction: the store is asked to delete every node
    /// that the transaction has superseded, and the tree is free for the
    /// next transaction if the store has failed on none. Gives the failure,
    /// if there is one.
    pub fn end_txn<S: Store>(&mut self, store: &mut StoreLog<S>, txn: Transaction) -> (r: Option<
        ErrorType,
    >)
        ensures
            final(store).written() == old(store).written(),
            if !old(self).txn {
                &&& r == Some(ErrorType::TxnClosed)
                &&& *final(self) == *old(self)
                &&& *final(store) == *old(store)
            } else if old(self).epoch != txn.epoch {
                &&& r == Some(ErrorType::TxnMismatch)
                &&& *final(self) == *old(self)
                &&& *final(store) == *old(store)
            } else {
                &&& final(store).scheduled() == old(store).scheduled() + txn.delete@
                &&& final(store).delete_answers().len() == old(store).delete_answers().len()
                    + txn.delete@.len()
                &&& r == first_failure(answers_since(*old(store), *final(store)))
                &&& r is None ==> *final(self) == (WriteTree { txn: false, ..*old(self) })
                &&& r is Some ==> *final(self) == *old(self)
            },
            old(self).txn && old(self).epoch == txn.epoch && txn.delete@.len() == 0 ==> r is None,
    {
        if !self.txn {
            return Some(ErrorType::TxnClosed);
        }
        if self.epoch != txn.epoch {
            return Some(ErrorType::TxnMismatch);
        }
        match self.close_txn(store, txn) {
            None => {
                self.txn = false;
                None
            },
            Some(e) => Some(e),
        }
    }

    /// Issues a node id that was never issued before.
    pub fn next_id(&mut self) -> (r: u64)
        requires
            old(self).id < u64::MAX,
        ensures
            r == old(self).id + 1,
            *final(self) == (WriteTree { id: r, ..*old(self) }),
    {
        self.id += 1;
        self.id
    }

    /// The tree as the nodes below know it: with no leaves listed and no
    /// root.
    pub fn to_tree(&self) -> (r: Tree)
        ensures
            r.epoch == self.epoch,
            r.id == self.id,
            r.max_pivots == self.max_pivots,
            r.max_buffer == self.max_buffer,
            r.txn == self.txn,
            r.wf() == self.wf(),
            r.leafs@ == Seq::<u64>::empty(),
            r.root is None,
    {
        Tree {
            epoch: self.epoch,
            id: self.id,
            max_pivots: self.max_pivots,
            max_buffer: self.max_buffer,
            leafs: Vec::new(),
            mode: Mode::Live,
            txn: self.txn,
            root: None,
        }
    }
}

} // verus!
