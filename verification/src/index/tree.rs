//! The root holder: configuration, counters and the transaction gate.

use crate::buf::{views, Buf};
use crate::error::ErrorType;
use crate::index::message::{msg_views, Message, MsgView};
use crate::index::store::{
    answers_since, first_failure, grown_from, Store, StoreLog, Written,
};
use crate::internal::Internal;
use crate::intake::{
    fresh_root, node_took, root_settled, root_written, rooted, sibling_kept, tree_took,
};
use crate::leaf::{
    keys_after, keys_after_all, lemma_one_assigned, Leaf, vals_after, vals_after_all,
};
use crate::mode::Mode;
use crate::node::{Body, Header, Held, NewChild, NewSibling, Node};
use crate::order::rank;
use crate::transaction::Transaction;
use vstd::prelude::*;

verus! {

/// Where `id` first stands in the list, or the length of the list.
pub open spec fn first_at(list: Seq<u64>, id: u64) -> int
    decreases list.len(),
{
    if list.len() == 0 {
        0
    } else if first_at(list.drop_last(), id) < list.len() - 1 {
        first_at(list.drop_last(), id)
    } else if list.last() == id {
        list.len() - 1
    } else {
        list.len() as int
    }
}

/// A position before which `id` does not stand and at which it does, if it
/// is in the list, is where `id` first stands.
pub proof fn lemma_first_at(list: Seq<u64>, id: u64, pos: int)
    requires
        0 <= pos <= list.len(),
        forall|j: int| 0 <= j < pos ==> list[j] != id,
        pos < list.len() ==> list[pos] == id,
    ensures
        first_at(list, id) == pos,
    decreases list.len(),
{
    if list.len() > 0 {
        let front = list.drop_last();
        if pos < list.len() - 1 {
            lemma_first_at(front, id, pos);
        } else {
            lemma_first_at(front, id, list.len() - 1);
        }
    }
}

/// Where `id` first stands in the list, or the length of the list.
pub fn position(list: &Vec<u64>, id: u64) -> (r: usize)
    ensures
        r == first_at(list@, id),
        r <= list@.len(),
{
    let mut i: usize = 0;
    while i < list.len() && list[i] != id
        invariant
            0 <= i <= list@.len(),
            forall|j: int| 0 <= j < i ==> list@[j] != id,
        decreases list@.len() - i,
    {
        i += 1;
    }
    proof {
        lemma_first_at(list@, id, i as int);
    }
    i
}

/// The root holder of one index.
pub struct Tree {
    /// The epoch of the last transaction begun.
    pub epoch: u64,
    /// The last node id issued.
    pub id: u64,
    /// An internal node with this many pivots is split.
    pub max_pivots: usize,
    /// An internal node with this many children flushes its buffer; a leaf
    /// with `max_pivots + max_buffer` entries is split.
    pub max_buffer: usize,
    /// The ids of the leaves, in key order.
    pub leafs: Vec<u64>,
    pub mode: Mode,
    /// A transaction is open.
    pub txn: bool,
    /// The id of the root, once the tree has one.
    pub root: Option<u64>,
}

/// Reading `id` gives a leaf, and what `scanner` promises of a call holds of
/// each of the leaf's entries.
pub open spec fn visited<S: Store, F: Fn(&[u8], &[u8])>(
    store: &StoreLog<S>,
    id: u64,
    scanner: &F,
) -> bool {
    exists|node: Node|
        {
            &&& #[trigger] store.reads(id, Ok::<Node, ErrorType>(node))
            &&& node.body is Leaf
            &&& forall|k: int|
                0 <= k < node.body->Leaf_0.keys@.len() ==> Node::handed(
                    scanner,
                    #[trigger] node.body->Leaf_0.keys@[k]@,
                    node.body->Leaf_0.vals@[k]@,
                )
        }
}

/// Reading `id` fails with `e`, or gives a node that is no leaf, which is
/// refused as corrupt.
pub open spec fn refused<S: Store>(store: &StoreLog<S>, id: u64, e: ErrorType) -> bool {
    exists|loaded: Result<Node, ErrorType>|
        {
            &&& #[trigger] store.reads(id, loaded)
            &&& match loaded {
                Err(got) => got == e,
                Ok(node) => !(node.body is Leaf) && e == ErrorType::Serialization,
            }
        }
}

/// What a scan of the leaves `leafs` has done when it ends with `r`: on
/// success every leaf was read and handed to `scanner`; a failure is that of
/// the first leaf that could not be read or was no leaf, and the leaves
/// before it were handed to `scanner`.
pub open spec fn scanned<S: Store, F: Fn(&[u8], &[u8])>(
    store: &StoreLog<S>,
    leafs: Seq<u64>,
    scanner: &F,
    r: Result<(), ErrorType>,
) -> bool {
    match r {
        Ok(_) => forall|i: int| 0 <= i < leafs.len() ==> visited(store, #[trigger] leafs[i], scanner),
        Err(e) => exists|i: int|
            {
                &&& 0 <= i < leafs.len()
                &&& refused(store, #[trigger] leafs[i], e)
                &&& forall|j: int| 0 <= j < i ==> visited(store, #[trigger] leafs[j], scanner)
            },
    }
}

/// The first failure of a run of calls: `first` if there was one before,
/// else the failure of `next`, if it is one.
pub fn keep_first(first: Option<ErrorType>, next: Result<(), ErrorType>) -> (r: Option<ErrorType>)
    ensures
        r == match first {
            Some(e) => Some(e),
            None => match next {
                Ok(_) => None,
                Err(e) => Some(e),
            },
        },
{
    match first {
        Some(e) => Some(e),
        None => match next {
            Ok(_) => None,
            Err(e) => Some(e),
        },
    }
}

impl Tree {
    /// The configuration is one that a tree can be made with.
    pub open spec fn wf(&self) -> bool {
        &&& self.max_pivots >= 1
        &&& self.max_buffer >= 1
        &&& self.max_pivots + self.max_buffer <= usize::MAX
    }

    /// The tree is `before` with more ids issued: the epoch, the
    /// configuration and the transaction gate are those of `before`.
    pub open spec fn moved_from(&self, before: &Tree) -> bool {
        &&& self.epoch == before.epoch
        &&& self.max_pivots == before.max_pivots
        &&& self.max_buffer == before.max_buffer
        &&& self.mode == before.mode
        &&& self.txn == before.txn
        &&& before.id <= self.id
    }

    /// The number of entries at which a leaf is split.
    pub open spec fn leaf_limit(&self) -> int {
        self.max_pivots + self.max_buffer
    }

    /// A tree without nodes, in epoch 0. Both limits must be at least 1.
    pub fn new(max_pivots: usize, max_buffer: usize, mode: Mode) -> (r: Tree)
        requires
            max_pivots >= 1,
            max_buffer >= 1,
            max_pivots + max_buffer <= usize::MAX,
        ensures
            r.wf(),
            r.epoch == 0,
            r.id == 0,
            r.max_pivots == max_pivots,
            r.max_buffer == max_buffer,
            r.leafs@ == Seq::<u64>::empty(),
            r.mode == mode,
            !r.txn,
            r.root is None,
    {
        Tree {
            epoch: 0,
            id: 0,
            max_pivots: max_pivots,
            max_buffer: max_buffer,
            leafs: Vec::new(),
            mode: mode,
            txn: false,
            root: None,
        }
    }

    /// Opens a transaction in a new epoch, unless one is open.
    pub fn begin_txn(&mut self) -> (r: Result<Transaction, ErrorType>)
        requires
            !old(self).txn ==> old(self).epoch < u64::MAX,
        ensures
            match r {
                Ok(txn) => {
                    &&& !old(self).txn
                    &&& *final(self) == (Tree {
                        epoch: (old(self).epoch + 1) as u64,
                        txn: true,
                        ..*old(self)
                    })
                    &&& txn.epoch == final(self).epoch
                    &&& txn.delete@ == Seq::<u64>::empty()
                },
                Err(e) => {
                    &&& old(self).txn
                    &&& e == ErrorType::TxnAlreadyOpen
                    &&& *final(self) == *old(self)
                },
            },
    {
        if self.txn {
            Err(ErrorType::TxnAlreadyOpen)
        } else {
            self.epoch += 1;
            self.txn = true;
            Ok(Transaction { epoch: self.epoch, delete: Vec::new() })
        }
    }

    /// Records that the leaf `leaf` has split off `sibling`: the sibling
    /// comes right after the leaf in the list of leaves, or at the end where
    /// the list does not hold the leaf.
    pub fn note_split(&mut self, leaf: u64, sibling: u64)
        ensures
            final(self).moved_from(old(self)),
            final(self).id == old(self).id,
            final(self).root == old(self).root,
            final(self).leafs@ == if first_at(old(self).leafs@, leaf) < old(self).leafs@.len() {
                old(self).leafs@.insert(first_at(old(self).leafs@, leaf) + 1, sibling)
            } else {
                old(self).leafs@.push(sibling)
            },
    {
        let at = position(&self.leafs, leaf);
        if at < self.leafs.len() {
            self.leafs.insert(at + 1, sibling);
        } else {
            self.leafs.push(sibling);
        }
    }

    /// Records that the leaf `old_id` now goes by `new_id`.
    pub fn note_rebind(&mut self, old_id: u64, new_id: u64)
        ensures
            final(self).moved_from(old(self)),
            final(self).id == old(self).id,
            final(self).root == old(self).root,
            final(self).leafs@ == if first_at(old(self).leafs@, old_id) < old(
                self,
            ).leafs@.len() {
                old(self).leafs@.update(first_at(old(self).leafs@, old_id), new_id)
            } else {
                old(self).leafs@
            },
    {
        let at = position(&self.leafs, old_id);
        if at < self.leafs.len() {
            self.leafs[at] = new_id;
        }
    }

    /// Issues a node id that was never issued before, if one is left.
    pub fn fresh_id(&mut self) -> (r: Result<u64, ErrorType>)
        ensures
            match r {
                Ok(id) => old(self).id < u64::MAX && id == old(self).id + 1 && *final(self) == (
                Tree { id: id, ..*old(self) }),
                Err(e) => old(self).id == u64::MAX && e == ErrorType::Exhausted && *final(self)
                    == *old(self),
            },
    {
        if self.id == u64::MAX {
            Err(ErrorType::Exhausted)
        } else {
            Ok(self.next_id())
        }
    }

    /// Issues a node id that was never issued before.
    pub fn next_id(&mut self) -> (r: u64)
        requires
            old(self).id < u64::MAX,
        ensures
            r == old(self).id + 1,
            *final(self) == (Tree { id: r, ..*old(self) }),
    {
        self.id += 1;
        self.id
    }

    /// Asks the store to delete every node that the transaction has
    /// superseded. A failure does not stop the run: the first one is given
    /// back when every deletion has been asked for.
    fn close_txn<S: Store>(&mut self, store: &mut StoreLog<S>, txn: Transaction) -> (r: Result<
        (),
        ErrorType,
    >)
        ensures
            *final(self) == *old(self),
            final(store).scheduled() == old(store).scheduled() + txn.delete@,
            final(store).written() == old(store).written(),
            final(store).delete_answers().len() == old(store).delete_answers().len()
                + txn.delete@.len(),
            r == (match first_failure(answers_since(*old(store), *final(store))) {
                Some(e) => Err::<(), ErrorType>(e),
                None => Ok::<(), ErrorType>(()),
            }),
    {
        let mut first: Option<ErrorType> = None;
        let mut i: usize = 0;
        let ghost base = old(store).delete_answers().len() as int;
        assert(old(store).scheduled() + txn.delete@.take(0) =~= old(store).scheduled());
        assert(store.delete_answers().skip(base) =~= Seq::<Result<(), ErrorType>>::empty());
        while i < txn.delete.len()
            invariant
                0 <= i <= txn.delete@.len(),
                base == old(store).delete_answers().len(),
                store.scheduled() == old(store).scheduled() + txn.delete@.take(i as int),
                store.written() == old(store).written(),
                store.delete_answers().len() == base + i,
                first == first_failure(store.delete_answers().skip(base)),
            decreases txn.delete@.len() - i,
        {
            let ghost before = store.delete_answers();
            let answer = store.schedule_delete(txn.delete[i]);
            first = keep_first(first, answer);
            assert(old(store).scheduled() + txn.delete@.take(i + 1) =~= (old(store).scheduled()
                + txn.delete@.take(i as int)).push(txn.delete@[i as int]));
            assert(store.delete_answers().skip(base).drop_last() =~= before.skip(base));
            i += 1;
        }
        assert(txn.delete@.take(i as int) =~= txn.delete@);
        match first {
            Some(e) => Err(e),
            None => Ok(()),
        }
    }

    /// Ends the open transaction: the store is asked to delete every node
    /// that the transaction has superseded, and the tree is free for the
    /// next transaction if the store has failed on none.
    pub fn end_txn<S: Store>(&mut self, store: &mut StoreLog<S>, txn: Transaction) -> (r: Result<
        (),
        ErrorType,
    >)
        ensures
            final(store).written() == old(store).written(),
            if !old(self).txn {
                &&& r == Err::<(), ErrorType>(ErrorType::TxnClosed)
                &&& *final(self) == *old(self)
                &&& *final(store) == *old(store)
            } else if old(self).epoch != txn.epoch {
                &&& r == Err::<(), ErrorType>(ErrorType::TxnMismatch)
                &&& *final(self) == *old(self)
                &&& *final(store) == *old(store)
            } else {
                &&& final(store).scheduled() == old(store).scheduled() + txn.delete@
                &&& final(store).delete_answers().len() == old(store).delete_answers().len()
                    + txn.delete@.len()
                &&& r == (match first_failure(answers_since(*old(store), *final(store))) {
                    Some(e) => Err::<(), ErrorType>(e),
                    None => Ok::<(), ErrorType>(()),
                })
                &&& r is Ok ==> *final(self) == (Tree { txn: false, ..*old(self) })
                &&& r is Err ==> *final(self) == *old(self)
            },
            old(self).txn && old(self).epoch == txn.epoch && txn.delete@.len() == 0 ==> r is Ok,
    {
        if !self.txn {
            return Err(ErrorType::TxnClosed);
        }
        if self.epoch != txn.epoch {
            return Err(ErrorType::TxnMismatch);
        }
        match self.close_txn(store, txn) {
            Ok(()) => {
                self.txn = false;
                Ok(())
            },
            Err(e) => Err(e),
        }
    }

    /// Hands every key and value of every leaf to `scanner`, leaf by leaf in
    /// the order of the list of leaves, and within a leaf in key order.
    /// Stops at the first leaf that cannot be read or is no leaf.
    pub fn scan<S: Store, F: Fn(&[u8], &[u8])>(&self, store: &StoreLog<S>, scanner: F) -> (r: Result<
        (),
        ErrorType,
    >)
        requires
            forall|key: &[u8], val: &[u8]| scanner.requires((key, val)),
        ensures
            self.leafs@.len() == 0 ==> r is Ok,
            scanned(store, self.leafs@, &scanner, r),
    {
        let mut i: usize = 0;
        while i < self.leafs.len()
            invariant
                0 <= i <= self.leafs@.len(),
                forall|key: &[u8], val: &[u8]| scanner.requires((key, val)),
                forall|j: int| 0 <= j < i ==> visited(store, #[trigger] self.leafs@[j], &scanner),
            decreases self.leafs@.len() - i,
        {
            let loaded = store.read(self.leafs[i]);
            let ghost seen = loaded;
            let node = match loaded {
                Ok(node) => node,
                Err(e) => {
                    assert(refused(store, self.leafs@[i as int], e)) by {
                        assert(store.reads(self.leafs@[i as int], seen));
                    }
                    return Err(e);
                },
            };
            match node.visit(&scanner) {
                Ok(()) => {
                    assert(visited(store, self.leafs@[i as int], &scanner)) by {
                        assert(store.reads(self.leafs@[i as int], Ok::<Node, ErrorType>(node)));
                    }
                },
                Err(e) => {
                    assert(refused(store, self.leafs@[i as int], e)) by {
                        assert(store.reads(self.leafs@[i as int], seen));
                    }
                    return Err(e);
                },
            }
            i += 1;
        }
        Ok(())
    }

    /// The root to write into: the node read from the store, or an empty
    /// leaf with a fresh id where the tree has no root yet.
    fn load_root<S: Store>(&mut self, store: &StoreLog<S>) -> (r: Result<Node, ErrorType>)
        ensures
            final(self).moved_from(old(self)),
            final(self).root == old(self).root,
            r is Ok ==> r->Ok_0.wf(),
            match old(self).root {
                Some(id) => *final(self) == *old(self) && store.reads(id, r),
                None => if old(self).id == u64::MAX {
                    &&& r matches Err(e) && e == ErrorType::Exhausted
                    &&& *final(self) == *old(self)
                } else {
                    &&& r matches Ok(node) && node.header.id == old(self).id + 1
                        && node.header.epoch == old(self).epoch && node.body is Leaf
                        && node.body->Leaf_0.keys@.len() == 0 && node.body->Leaf_0.vals@.len()
                        == 0
                    &&& final(self).id == old(self).id + 1
                    &&& final(self).leafs@ == old(self).leafs@.push((old(self).id + 1) as u64)
                },
            },
    {
        match self.root {
            Some(id) => store.read(id),
            None => {
                let id = match self.fresh_id() {
                    Ok(id) => id,
                    Err(e) => { return Err(e); },
                };
                self.leafs.push(id);
                let leaf = Leaf { data: Vec::new(), keys: Vec::new(), vals: Vec::new() };
                assert(views(leaf.keys@) =~= Seq::<Seq<u8>>::empty());
                Ok(Node { header: Header { id: id, epoch: self.epoch }, body: Body::Leaf(leaf) })
            },
        }
    }

    /// Writes the root back after it took messages in, under a fresh id if
    /// it was last written in an earlier epoch. Where the root has split, a
    /// new root one level higher takes the old root and its sibling as its
    /// two children.
    fn settle_root<S: Store>(
        &mut self,
        store: &mut StoreLog<S>,
        txn: &mut Transaction,
        root: Node,
        sibling: Option<NewChild>,
    ) -> (r: Result<(), ErrorType>)
        requires
            root.wf(),
        ensures
            final(self).moved_from(old(self)),
            final(txn).grown_from(old(txn)),
            final(store).wrote_since(old(store), old(self).epoch),
            r is Ok ==> final(self).root is Some,
            root_settled(
                root,
                sibling,
                *old(self),
                *final(self),
                *old(txn),
                *final(txn),
                *old(store),
                *final(store),
                r,
            ),
    {
        let ghost store0 = *store;
        let ghost tree0 = *self;
        let ghost given = root;
        let mut root = root;
        match root.rebind(self, txn) {
            Ok(()) => {},
            Err(e) => { return Err(e); },
        }
        let wrote = store.write(&root);
        let ghost store1 = *store;
        match wrote {
            Ok(()) => {},
            Err(e) => {
                proof {
                    assert(root_written(given, sibling, tree0, *self, store0, store1, *store, Err(e)));
                }
                return Err(e);
            },
        }
        self.root = Some(root.header.id);
        match sibling {
            None => {
                proof {
                    assert(root_written(given, sibling, tree0, *self, store0, store1, *store, Ok(())));
                }
                Ok(())
            },
            Some(new) => {
                let level = root.body.level();
                if level == u32::MAX || self.id == u64::MAX {
                    proof {
                        assert(root_written(
                            given,
                            sibling,
                            tree0,
                            *self,
                            store0,
                            store1,
                            *store,
                            Err(ErrorType::Exhausted),
                        ));
                    }
                    return Err(ErrorType::Exhausted);
                }
                let id = self.next_id();
                let ghost key = new.key@;
                let mut keys: Vec<Buf> = Vec::new();
                keys.push(Buf::Owned(new.key));
                let mut children: Vec<u64> = Vec::new();
                children.push(root.header.id);
                children.push(new.id);
                let top = Internal {
                    level: level + 1,
                    data: Vec::new(),
                    keys: keys,
                    buffer: Vec::new(),
                    children: children,
                    serde: false,
                };
                proof {
                    assert(top.pivots() =~= seq![key]);
                    assert(top.children@ =~= seq![root.header.id, new.id]);
                    assert(top.pending() =~= Seq::<MsgView>::empty());
                }
                let node = Node {
                    header: Header { id: id, epoch: self.epoch },
                    body: Body::Internal(top),
                };
                let wrote = store.write(&node);
                proof {
                    store.lemma_wrote_since_transitive(&store1, &store0, old(self).epoch);
                }
                match wrote {
                    Ok(()) => {},
                    Err(e) => {
                        proof {
                            assert(root_written(
                                given,
                                sibling,
                                tree0,
                                *self,
                                store0,
                                store1,
                                *store,
                                Err(e),
                            ));
                        }
                        return Err(e);
                    },
                }
                self.root = Some(id);
                proof {
                    assert(root_written(given, sibling, tree0, *self, store0, store1, *store, Ok(())));
                }
                Ok(())
            },
        }
    }

    /// Writes one message into the tree.
    pub fn upsert<S: Store>(
        &mut self,
        store: &mut StoreLog<S>,
        txn: &mut Transaction,
        msg: Message,
    ) -> (r: Result<(), ErrorType>)
        requires
            old(self).wf(),
        ensures
            final(self).wf(),
            final(self).moved_from(old(self)),
            final(txn).grown_from(old(txn)),
            final(store).wrote_since(old(store), old(self).epoch),
            r is Ok ==> final(self).root is Some,
            tree_took(
                *old(self),
                seq![msg@],
                *final(self),
                *old(txn),
                *final(txn),
                *old(store),
                *final(store),
                r,
            ),
            old(self).root is None && old(self).id < u64::MAX ==> {
                &&& final(store).written() == old(store).written().push(
                    Written {
                        id: (old(self).id + 1) as u64,
                        epoch: old(self).epoch,
                        level: 0,
                        held: Held::Leaf { keys: seq![msg.key@], vals: seq![msg.data@] },
                        answer: final(store).written().last().answer,
                    },
                )
                &&& match final(store).written().last().answer {
                    Ok(_) => r is Ok,
                    Err(e) => r matches Err(got) && got == e,
                }
                &&& final(self).id == old(self).id + 1
                &&& final(self).leafs@ == old(self).leafs@.push((old(self).id + 1) as u64)
                &&& final(txn).delete@ == old(txn).delete@
                &&& final(self).root == if r is Ok {
                    Some((old(self).id + 1) as u64)
                } else {
                    None
                }
            },
    {
        let ghost store0 = *store;
        let ghost tree0 = *self;
        let ghost txn0 = *txn;
        let ghost batch = seq![msg@];
        let loaded = self.load_root(store);
        let ghost seen = loaded;
        let ghost tree_a = *self;
        let mut root = match loaded {
            Ok(root) => root,
            Err(e) => { return Err(e); },
        };
        let ghost root0 = root;
        proof {
            if tree0.root is None {
                assert(views(root.body->Leaf_0.keys@) =~= Seq::<Seq<u8>>::empty());
                assert(views(root.body->Leaf_0.vals@) =~= Seq::<Seq<u8>>::empty());
                let none = Seq::<Seq<u8>>::empty();
                lemma_one_assigned(none, none, msg@);
                assert(rank(none, msg.key@) == 0);
                assert(keys_after(none, msg.key@) =~= seq![msg.key@]);
                assert(vals_after(none, none, msg.key@, msg.data@) =~= seq![msg.data@]);
            }
        }
        let taken = root.upsert_msg(self, store, txn, msg);
        let ghost took = taken;
        let ghost root1 = root;
        let ghost store1 = *store;
        let ghost tree1 = *self;
        let ghost txn1 = *txn;
        proof {
            assert(node_took(root0, batch, root1, took, tree_a, tree1, txn0, txn1, store0, store1));
            if tree0.root is None && keys_after_all(Seq::<Seq<u8>>::empty(), batch).len()
                < tree0.leaf_limit() {
                let keys = keys_after_all(root0.body->Leaf_0.keys_view(), batch);
                let vals = vals_after_all(
                    root0.body->Leaf_0.keys_view(),
                    root0.body->Leaf_0.vals_view(),
                    batch,
                );
                let sib = choose|sib: Option<NewSibling>|
                    {
                        &&& #[trigger] Leaf::settled(
                            keys,
                            vals,
                            tree_a.leaf_limit(),
                            root1.body->Leaf_0,
                            sib,
                        )
                        &&& sibling_kept(root0.header.id, sib, tree_a, tree1, store0, store1, took)
                    };
                assert(sib is None);
                assert(took matches Ok(None));
                assert(tree1 == tree_a && store1 == store0 && txn1 == txn0);
                assert(root1.body.held() == Held::Leaf { keys: keys, vals: vals });
            }
        }
        let sibling = match taken {
            Ok(sibling) => sibling,
            Err(e) => {
                proof {
                    assert(rooted(root0, batch, tree_a, *self, txn0, *txn, store0, *store, Err(e)));
                    if tree0.root is None {
                        assert(fresh_root(tree0, root0, tree_a));
                    }
                }
                return Err(e);
            },
        };
        let ghost settled = sibling;
        let r = self.settle_root(store, txn, root, sibling);
        proof {
            store.lemma_wrote_since_transitive(&store1, &store0, old(self).epoch);
            if tree0.root is None && keys_after_all(Seq::<Seq<u8>>::empty(), batch).len()
                < tree0.leaf_limit() {
                let sm = choose|sm: StoreLog<S>| #[trigger]
                    root_written(root1, settled, tree1, *self, store1, sm, *store, r);
                assert(root_written(root1, settled, tree1, *self, store1, sm, *store, r));
                assert(sm == *store);
            }
            assert(rooted(root0, batch, tree_a, *self, txn0, *txn, store0, *store, r));
            if tree0.root is None {
                assert(fresh_root(tree0, root0, tree_a));
            }
        }
        r
    }

    /// Writes a batch of messages into the tree, in order.
    pub fn upsert_batch<S: Store>(
        &mut self,
        store: &mut StoreLog<S>,
        txn: &mut Transaction,
        msgs: Vec<Message>,
    ) -> (r: Result<(), ErrorType>)
        requires
            old(self).wf(),
        ensures
            final(self).wf(),
            final(self).moved_from(old(self)),
            final(txn).grown_from(old(txn)),
            final(store).wrote_since(old(store), old(self).epoch),
            r is Ok ==> final(self).root is Some,
            tree_took(
                *old(self),
                msg_views(msgs@),
                *final(self),
                *old(txn),
                *final(txn),
                *old(store),
                *final(store),
                r,
            ),
            old(self).root is None && old(self).id < u64::MAX && keys_after_all(
                Seq::<Seq<u8>>::empty(),
                msg_views(msgs@),
            ).len() < old(self).leaf_limit() ==> {
                &&& final(store).written() == old(store).written().push(
                    Written {
                        id: (old(self).id + 1) as u64,
                        epoch: old(self).epoch,
                        level: 0,
                        held: Held::Leaf {
                            keys: keys_after_all(Seq::<Seq<u8>>::empty(), msg_views(msgs@)),
                            vals: vals_after_all(
                                Seq::<Seq<u8>>::empty(),
                                Seq::<Seq<u8>>::empty(),
                                msg_views(msgs@),
                            ),
                        },
                        answer: final(store).written().last().answer,
                    },
                )
                &&& match final(store).written().last().answer {
                    Ok(_) => r is Ok,
                    Err(e) => r matches Err(got) && got == e,
                }
                &&& final(self).id == old(self).id + 1
                &&& final(self).leafs@ == old(self).leafs@.push((old(self).id + 1) as u64)
                &&& final(txn).delete@ == old(txn).delete@
                &&& final(self).root == if r is Ok {
                    Some((old(self).id + 1) as u64)
                } else {
                    None
                }
            },
    {
        let ghost store0 = *store;
        let ghost tree0 = *self;
        let ghost txn0 = *txn;
        let ghost batch = msg_views(msgs@);
        let loaded = self.load_root(store);
        let ghost seen = loaded;
        let ghost tree_a = *self;
        let mut root = match loaded {
            Ok(root) => root,
            Err(e) => { return Err(e); },
        };
        let ghost root0 = root;
        proof {
            if tree0.root is None {
                assert(views(root.body->Leaf_0.keys@) =~= Seq::<Seq<u8>>::empty());
                assert(views(root.body->Leaf_0.vals@) =~= Seq::<Seq<u8>>::empty());
            }
        }
        let taken = root.upsert_msgs(self, store, txn, msgs);
        let ghost took = taken;
        let ghost root1 = root;
        let ghost store1 = *store;
        let ghost tree1 = *self;
        let ghost txn1 = *txn;
        proof {
            assert(node_took(root0, batch, root1, took, tree_a, tree1, txn0, txn1, store0, store1));
            if tree0.root is None && keys_after_all(Seq::<Seq<u8>>::empty(), batch).len()
                < tree0.leaf_limit() {
                let keys = keys_after_all(root0.body->Leaf_0.keys_view(), batch);
                let vals = vals_after_all(
                    root0.body->Leaf_0.keys_view(),
                    root0.body->Leaf_0.vals_view(),
                    batch,
                );
                let sib = choose|sib: Option<NewSibling>|
                    {
                        &&& #[trigger] Leaf::settled(
                            keys,
                            vals,
                            tree_a.leaf_limit(),
                            root1.body->Leaf_0,
                            sib,
                        )
                        &&& sibling_kept(root0.header.id, sib, tree_a, tree1, store0, store1, took)
                    };
                assert(sib is None);
                assert(took matches Ok(None));
                assert(tree1 == tree_a && store1 == store0 && txn1 == txn0);
                assert(root1.body.held() == Held::Leaf { keys: keys, vals: vals });
            }
        }
        let sibling = match taken {
            Ok(sibling) => sibling,
            Err(e) => {
                proof {
                    assert(rooted(root0, batch, tree_a, *self, txn0, *txn, store0, *store, Err(e)));
                    if tree0.root is None {
                        assert(fresh_root(tree0, root0, tree_a));
                    }
                }
                return Err(e);
            },
        };
        let ghost settled = sibling;
        let r = self.settle_root(store, txn, root, sibling);
        proof {
            store.lemma_wrote_since_transitive(&store1, &store0, old(self).epoch);
            if tree0.root is None && keys_after_all(Seq::<Seq<u8>>::empty(), batch).len()
                < tree0.leaf_limit() {
                let sm = choose|sm: StoreLog<S>| #[trigger]
                    root_written(root1, settled, tree1, *self, store1, sm, *store, r);
                assert(root_written(root1, settled, tree1, *self, store1, sm, *store, r));
                assert(sm == *store);
            }
            assert(rooted(root0, batch, tree_a, *self, txn0, *txn, store0, *store, r));
            if tree0.root is None {
                assert(fresh_root(tree0, root0, tree_a));
            }
        }
        r
    }
}

} // verus!
