//! What it is for a node to take messages in: the relations between a node
//! before and after, the tree, the transaction, the store and the result,
//! that the functions on the write path establish.

use crate::buf::{views, Buf};
use crate::error::ErrorType;
use crate::index::message::MsgView;
use crate::index::store::{Store, StoreLog, Written};
use crate::index::tree::{first_at, Tree};
use crate::internal::{fits, flushed, Internal};
use crate::leaf::{keys_after_all, vals_after_all, Leaf};
use crate::node::{Held, NewChild, NewSibling, Node};
use crate::order::{lex_lt, strictly_sorted};
use crate::pending::side;
use crate::transaction::Transaction;
use vstd::prelude::*;

verus! {

/// The body of a node has taken messages in with the result `b`, leaving
/// the tree as `tm` and the store as `sm`.
pub open spec fn body_step<S: Store>(
    b: Result<Option<NewSibling>, ErrorType>,
    tm: Tree,
    sm: StoreLog<S>,
) -> bool {
    true
}

/// A child has taken messages in, ending as `c1` with the result `cr`, and
/// leaving the tree as `tm`, the transaction as `xm` and the store as `sm`.
pub open spec fn child_step<S: Store>(
    c1: Node,
    cr: Result<Option<NewChild>, ErrorType>,
    tm: Tree,
    xm: Transaction,
    sm: StoreLog<S>,
) -> bool {
    true
}

/// One node was handed to the store since `s0`, with the given id, epoch,
/// level and content; no deletion was asked for.
pub open spec fn wrote_one<S: Store>(
    s0: StoreLog<S>,
    s1: StoreLog<S>,
    id: u64,
    epoch: u64,
    level: u32,
    held: Held,
) -> bool {
    &&& s1.written() == s0.written().push(
        Written { id: id, epoch: epoch, level: level, held: held, answer: last_answer(s1) },
    )
    &&& s1.scheduled() == s0.scheduled()
    &&& s1.delete_answers() == s0.delete_answers()
}

/// What the store answered to the last write.
pub open spec fn last_answer<S: Store>(s1: StoreLog<S>) -> Result<(), ErrorType> {
    s1.written().last().answer
}

/// The list of leaves after the node `node` was rebound to `id`: a leaf that
/// is listed goes by its new id.
pub open spec fn leaf_relisted(leafs: Seq<u64>, node: Node, id: u64) -> Seq<u64> {
    if node.body is Leaf && first_at(leafs, node.header.id) < leafs.len() {
        leafs.update(first_at(leafs, node.header.id), id)
    } else {
        leafs
    }
}

/// The list of leaves after the leaf `home` has split off the leaf `id`.
pub open spec fn leaf_listed(leafs: Seq<u64>, home: u64, id: u64) -> Seq<u64> {
    if first_at(leafs, home) < leafs.len() {
        leafs.insert(first_at(leafs, home) + 1, id)
    } else {
        leafs.push(id)
    }
}

/// What becomes of what the body of the node `home` has split off: nothing
/// where there is nothing; else the sibling gets the next id and the tree's
/// epoch and is handed to the store, and the result is the store's failure or
/// the sibling's id and key. Without an id left, nothing is written.
pub open spec fn sibling_kept<S: Store>(
    home: u64,
    body: Option<NewSibling>,
    t0: Tree,
    t1: Tree,
    s0: StoreLog<S>,
    s1: StoreLog<S>,
    r: Result<Option<NewChild>, ErrorType>,
) -> bool {
    match body {
        None => r matches Ok(None) && t1 == t0 && s1 == s0,
        Some(sib) => if t0.id == u64::MAX {
            &&& r matches Err(e) && e == ErrorType::Exhausted
            &&& t1 == t0
            &&& s1 == s0
        } else {
            let id = (t0.id + 1) as u64;
            &&& t1.moved_from(&t0)
            &&& t1.id == id
            &&& t1.root == t0.root
            &&& wrote_one(s0, s1, id, t0.epoch, sib.body.spec_level(), sib.body.held())
            &&& match last_answer(s1) {
                Err(e) => r matches Err(got) && got == e && t1.leafs@ == t0.leafs@,
                Ok(_) => {
                    &&& r matches Ok(Some(new)) && new.id == id && new.key@ == sib.key@
                    &&& t1.leafs@ == if sib.body is Leaf {
                        leaf_listed(t0.leafs@, home, id)
                    } else {
                        t0.leafs@
                    }
                },
            }
        },
    }
}

/// The node is as it was, but for its buffer, which holds `pending`.
pub open spec fn stuck(
    keys: Seq<Buf>,
    children: Seq<u64>,
    pending: Seq<MsgView>,
    i1: Internal,
) -> bool {
    &&& i1.keys@ == keys
    &&& i1.children@ == children
    &&& i1.pending() == pending
}

/// The pivots after the child at `idx` has handed up what it split off.
pub open spec fn grafted_keys(keys: Seq<Buf>, idx: int, sib: Option<NewChild>) -> Seq<Buf> {
    match sib {
        None => keys,
        Some(new) => keys.insert(idx, Buf::Owned(new.key)),
    }
}

/// The children after the child at `idx` was written under `id` and has
/// handed up what it split off.
pub open spec fn grafted_children(
    children: Seq<u64>,
    idx: int,
    id: u64,
    sib: Option<NewChild>,
) -> Seq<u64> {
    match sib {
        None => children.update(idx, id),
        Some(new) => children.update(idx, id).insert(idx + 1, new.id),
    }
}

/// A node that held `keys`, `children` and `pending` is parted at its
/// median pivot into `i1` and the sibling `s`: the pivot leaves both, the
/// pivots and children before it stay, those after it leave, and each
/// message goes to the side that its key belongs to.
pub open spec fn halved(
    keys: Seq<Buf>,
    children: Seq<u64>,
    pending: Seq<MsgView>,
    i1: Internal,
    s: NewSibling,
) -> bool {
    let m = keys.len() as int / 2;
    let pivot = views(keys)[m];
    &&& i1.keys@ == keys.take(m)
    &&& i1.children@ == children.take(m + 1)
    &&& i1.pending() == side(pending, pivot, false)
    &&& s.key@ == pivot
    &&& s.body is Internal
    &&& s.body.wf()
    &&& s.body->Internal_0.level == i1.level
    &&& s.body->Internal_0.pivots() == views(keys).skip(m + 1)
    &&& s.body->Internal_0.children@ == children.skip(m + 1)
    &&& s.body->Internal_0.pending() == side(pending, pivot, true)
}

/// The halves of a node with sorted pivots: every pivot that stays comes
/// before the key that leaves, which comes before every pivot of the
/// sibling; the two halves together hold all pivots but that key, and all
/// children.
pub proof fn lemma_halved(
    keys: Seq<Buf>,
    children: Seq<u64>,
    pending: Seq<MsgView>,
    i1: Internal,
    s: NewSibling,
)
    requires
        halved(keys, children, pending, i1, s),
        strictly_sorted(views(keys)),
        children.len() == keys.len() + 1,
        keys.len() >= 1,
    ensures
        forall|i: int| 0 <= i < i1.keys@.len() ==> lex_lt(#[trigger] i1.pivots()[i], s.key@),
        forall|j: int|
            0 <= j < s.body->Internal_0.keys@.len() ==> lex_lt(
                s.key@,
                #[trigger] s.body->Internal_0.pivots()[j],
            ),
        i1.keys@.len() + s.body->Internal_0.keys@.len() + 1 == keys.len(),
        i1.children@ + s.body->Internal_0.children@ == children,
        i1.children@.len() == i1.keys@.len() + 1,
        s.body->Internal_0.children@.len() == s.body->Internal_0.keys@.len() + 1,
{
    let m = keys.len() as int / 2;
    let all = views(keys);
    let right = s.body->Internal_0;
    assert(i1.pivots() =~= all.take(m));
    assert(right.pivots().len() == right.keys@.len());
    assert forall|i: int| 0 <= i < i1.keys@.len() implies lex_lt(
        #[trigger] i1.pivots()[i],
        s.key@,
    ) by {
        assert(lex_lt(all[i], all[m]));
    }
    assert forall|j: int| 0 <= j < right.keys@.len() implies lex_lt(
        s.key@,
        #[trigger] right.pivots()[j],
    ) by {
        assert(lex_lt(all[m], all[m + 1 + j]));
    }
    assert(i1.children@ + right.children@ =~= children);
}

/// What it is for a node that holds `keys`, `children` and `pending` to take
/// the child at `idx` back after the child took messages in. The child is
/// rebound if it was last written in an earlier epoch (without an id left
/// that fails, and nothing changes) and handed to the store. Where the store
/// fails, or what the child split off does not fit between the pivots, that
/// is the result and the node is as it was. Else the node takes in the
/// child's id and what the child split off, and is parted if it has reached
/// the limit of pivots.
pub open spec fn taken_back<S: Store>(
    level: u32,
    keys: Seq<Buf>,
    children: Seq<u64>,
    pending: Seq<MsgView>,
    idx: int,
    child: Node,
    sib: Option<NewChild>,
    i1: Internal,
    b: Result<Option<NewSibling>, ErrorType>,
    t0: Tree,
    t1: Tree,
    x0: Transaction,
    x1: Transaction,
    s0: StoreLog<S>,
    s1: StoreLog<S>,
) -> bool {
    let cow = child.header.epoch != t0.epoch;
    &&& i1.level == level
    &&& if cow && t0.id == u64::MAX {
        &&& b matches Err(e) && e == ErrorType::Exhausted
        &&& stuck(keys, children, pending, i1)
        &&& t1 == t0
        &&& x1 == x0
        &&& s1 == s0
    } else {
        let id = if cow {
            (t0.id + 1) as u64
        } else {
            child.header.id
        };
        &&& t1.moved_from(&t0)
        &&& t1.root == t0.root
        &&& t1.id == if cow {
            (t0.id + 1) as u64
        } else {
            t0.id
        }
        &&& t1.leafs@ == if cow {
            leaf_relisted(t0.leafs@, child, id)
        } else {
            t0.leafs@
        }
        &&& x1.epoch == x0.epoch
        &&& x1.delete@ == if cow {
            x0.delete@.push(child.header.id)
        } else {
            x0.delete@
        }
        &&& wrote_one(s0, s1, id, t0.epoch, child.body.spec_level(), child.body.held())
        &&& match last_answer(s1) {
            Err(e) => b matches Err(got) && got == e && stuck(keys, children, pending, i1),
            Ok(_) => if sib is Some && !fits(views(keys), idx, sib->0.key@) {
                &&& b matches Err(got) && got == ErrorType::Serialization
                &&& stuck(keys, children, pending, i1)
            } else {
                let keys2 = grafted_keys(keys, idx, sib);
                let children2 = grafted_children(children, idx, id, sib);
                &&& strictly_sorted(views(keys2))
                &&& children2.len() == keys2.len() + 1
                &&& if keys2.len() < t0.max_pivots {
                    &&& b matches Ok(None)
                    &&& stuck(keys2, children2, pending, i1)
                } else {
                    b matches Ok(Some(s)) && halved(keys2, children2, pending, i1, s)
                }
            },
        }
    }
}

/// What it is for a node of level `level` that holds `keys`, `children` and
/// `pending` to flush. The buffer is ordered and the longest run of messages
/// bound for one child leaves it; the child is read. A failed read is the
/// result, and a child that does not stand one level below is refused as
/// corrupt; then nothing else has changed. Else the child takes the messages
/// in; its failure is the result; else the node takes the child back.
pub open spec fn flushed_down<S: Store>(
    level: u32,
    keys: Seq<Buf>,
    children: Seq<u64>,
    pending: Seq<MsgView>,
    i1: Internal,
    b: Result<Option<NewSibling>, ErrorType>,
    t0: Tree,
    t1: Tree,
    x0: Transaction,
    x1: Transaction,
    s0: StoreLog<S>,
    s1: StoreLog<S>,
) -> bool
    decreases level, 0int,
{
    exists|child: usize, sent: Seq<MsgView>, rest: Seq<MsgView>, loaded: Result<Node, ErrorType>|
        #![trigger
            flushed(pending, views(keys), child, sent, rest),
            s0.reads(children[child as int], loaded)
        ]
        {
            &&& flushed(pending, views(keys), child, sent, rest)
            &&& child < children.len()
            &&& s0.reads(children[child as int], loaded)
            &&& i1.level == level
            &&& match loaded {
                Err(e) => {
                    &&& b matches Err(got) && got == e
                    &&& stuck(keys, children, rest, i1)
                    &&& t1 == t0
                    &&& x1 == x0
                    &&& s1 == s0
                },
                Ok(c0) => if c0.body.spec_level() + 1 != level {
                    &&& b matches Err(got) && got == ErrorType::Serialization
                    &&& stuck(keys, children, rest, i1)
                    &&& t1 == t0
                    &&& x1 == x0
                    &&& s1 == s0
                } else {
                    exists|
                        c1: Node,
                        cr: Result<Option<NewChild>, ErrorType>,
                        tm: Tree,
                        xm: Transaction,
                        sm: StoreLog<S>,
                    |
                        {
                            &&& #[trigger] child_step(c1, cr, tm, xm, sm)
                            &&& node_took(c0, sent, c1, cr, t0, tm, x0, xm, s0, sm)
                            &&& match cr {
                                Err(e) => {
                                    &&& b matches Err(got) && got == e
                                    &&& stuck(keys, children, rest, i1)
                                    &&& t1 == tm
                                    &&& x1 == xm
                                    &&& s1 == sm
                                },
                                Ok(sib) => taken_back(
                                    level,
                                    keys,
                                    children,
                                    rest,
                                    child as int,
                                    c1,
                                    sib,
                                    i1,
                                    b,
                                    tm,
                                    t1,
                                    xm,
                                    x1,
                                    sm,
                                    s1,
                                ),
                            }
                        }
                },
            }
        }
}

/// What it is for the internal node `i0` to take `msgs` in: they join the
/// buffer, and where the node has as many children as the tree lets it have
/// before it flushes, and any message is pending, the node flushes.
pub open spec fn internal_took<S: Store>(
    i0: Internal,
    msgs: Seq<MsgView>,
    i1: Internal,
    b: Result<Option<NewSibling>, ErrorType>,
    t0: Tree,
    t1: Tree,
    x0: Transaction,
    x1: Transaction,
    s0: StoreLog<S>,
    s1: StoreLog<S>,
) -> bool
    decreases i0.level, 1int,
{
    let pending = i0.pending() + msgs;
    &&& i1.level == i0.level
    &&& if i0.children@.len() < t0.max_buffer || pending.len() == 0 {
        &&& b matches Ok(None)
        &&& stuck(i0.keys@, i0.children@, pending, i1)
        &&& t1 == t0
        &&& x1 == x0
        &&& s1 == s0
    } else {
        flushed_down(i0.level, i0.keys@, i0.children@, pending, i1, b, t0, t1, x0, x1, s0, s1)
    }
}

/// What it is for the node `n0` to take `msgs` in, ending as `n1` with the
/// result `r`. A leaf assigns them in order and is parted at its median if it
/// has reached the limit; an internal node buffers them and flushes if it
/// must. What the body splits off is written to the store as a sibling.
pub open spec fn node_took<S: Store>(
    n0: Node,
    msgs: Seq<MsgView>,
    n1: Node,
    r: Result<Option<NewChild>, ErrorType>,
    t0: Tree,
    t1: Tree,
    x0: Transaction,
    x1: Transaction,
    s0: StoreLog<S>,
    s1: StoreLog<S>,
) -> bool
    decreases n0.body.spec_level(), 2int,
{
    &&& n1.header == n0.header
    &&& match n0.body {
        crate::node::Body::Leaf(l0) => {
            &&& n1.body is Leaf
            &&& x1 == x0
            &&& exists|sib: Option<NewSibling>|
                {
                    &&& #[trigger] Leaf::settled(
                        keys_after_all(l0.keys_view(), msgs),
                        vals_after_all(l0.keys_view(), l0.vals_view(), msgs),
                        t0.leaf_limit(),
                        n1.body->Leaf_0,
                        sib,
                    )
                    &&& sibling_kept(n0.header.id, sib, t0, t1, s0, s1, r)
                }
        },
        crate::node::Body::Internal(i0) => {
            &&& n1.body is Internal
            &&& exists|b: Result<Option<NewSibling>, ErrorType>, tm: Tree, sm: StoreLog<S>|
                {
                    &&& #[trigger] body_step(b, tm, sm)
                    &&& internal_took(
                        i0,
                        msgs,
                        n1.body->Internal_0,
                        b,
                        t0,
                        tm,
                        x0,
                        x1,
                        s0,
                        sm,
                    )
                    &&& match b {
                        Err(e) => r matches Err(got) && got == e && t1 == tm && s1 == sm,
                        Ok(sib) => sibling_kept(n0.header.id, sib, tm, t1, sm, s1, r),
                    }
                }
        },
    }
}

/// A leaf node has taken messages in where its leaf is settled and what the
/// leaf split off is kept.
pub proof fn lemma_leaf_node_took<S: Store>(
    n0: Node,
    msgs: Seq<MsgView>,
    n1: Node,
    r: Result<Option<NewChild>, ErrorType>,
    t0: Tree,
    t1: Tree,
    x0: Transaction,
    x1: Transaction,
    s0: StoreLog<S>,
    s1: StoreLog<S>,
    sib: Option<NewSibling>,
)
    requires
        n1.header == n0.header,
        n0.body is Leaf,
        n1.body is Leaf,
        x1 == x0,
        Leaf::settled(
            keys_after_all(n0.body->Leaf_0.keys_view(), msgs),
            vals_after_all(n0.body->Leaf_0.keys_view(), n0.body->Leaf_0.vals_view(), msgs),
            t0.leaf_limit(),
            n1.body->Leaf_0,
            sib,
        ),
        sibling_kept(n0.header.id, sib, t0, t1, s0, s1, r),
    ensures
        node_took(n0, msgs, n1, r, t0, t1, x0, x1, s0, s1),
{
}

/// An internal node has taken messages in where its body has, and what the
/// body split off is kept.
pub proof fn lemma_internal_node_took<S: Store>(
    n0: Node,
    msgs: Seq<MsgView>,
    n1: Node,
    r: Result<Option<NewChild>, ErrorType>,
    t0: Tree,
    t1: Tree,
    x0: Transaction,
    x1: Transaction,
    s0: StoreLog<S>,
    s1: StoreLog<S>,
    b: Result<Option<NewSibling>, ErrorType>,
    tm: Tree,
    sm: StoreLog<S>,
)
    requires
        n1.header == n0.header,
        n0.body is Internal,
        n1.body is Internal,
        internal_took(n0.body->Internal_0, msgs, n1.body->Internal_0, b, t0, tm, x0, x1, s0, sm),
        match b {
            Err(e) => r matches Err(got) && got == e && t1 == tm && s1 == sm,
            Ok(sib) => sibling_kept(n0.header.id, sib, tm, t1, sm, s1, r),
        },
    ensures
        node_took(n0, msgs, n1, r, t0, t1, x0, x1, s0, s1),
{
    assert(body_step(b, tm, sm));
}

/// What it is for the tree to settle its root after the root took messages
/// in and split off `sib`. The root is rebound if it was last written in an
/// earlier epoch (without an id left that fails, and nothing changes) and
/// handed to the store; the store's failure is the result. Where the root
/// has split, a new root one level higher, with the key of the sibling as
/// its one pivot and the old root and the sibling as its two children, gets
/// the next id and is handed to the store; without a level or an id left
/// that fails.
pub open spec fn root_settled<S: Store>(
    root: Node,
    sib: Option<NewChild>,
    t0: Tree,
    t1: Tree,
    x0: Transaction,
    x1: Transaction,
    s0: StoreLog<S>,
    s1: StoreLog<S>,
    r: Result<(), ErrorType>,
) -> bool {
    let cow = root.header.epoch != t0.epoch;
    if cow && t0.id == u64::MAX {
        &&& r matches Err(e) && e == ErrorType::Exhausted
        &&& t1 == t0
        &&& x1 == x0
        &&& s1 == s0
    } else {
        let kept = if cow {
            (t0.id + 1) as u64
        } else {
            root.header.id
        };
        let issued = if cow {
            (t0.id + 1) as u64
        } else {
            t0.id
        };
        &&& t1.moved_from(&t0)
        &&& x1.epoch == x0.epoch
        &&& x1.delete@ == if cow {
            x0.delete@.push(root.header.id)
        } else {
            x0.delete@
        }
        &&& t1.leafs@ == if cow {
            leaf_relisted(t0.leafs@, root, kept)
        } else {
            t0.leafs@
        }
        &&& exists|sm: StoreLog<S>| #[trigger] root_written(root, sib, t0, t1, s0, sm, s1, r)
    }
}

/// The second half of settling a root: the root was handed to the store,
/// which left the store as `sm`; what follows the store's answer.
pub open spec fn root_written<S: Store>(
    root: Node,
    sib: Option<NewChild>,
    t0: Tree,
    t1: Tree,
    s0: StoreLog<S>,
    sm: StoreLog<S>,
    s1: StoreLog<S>,
    r: Result<(), ErrorType>,
) -> bool {
    let cow = root.header.epoch != t0.epoch;
    let kept = if cow {
        (t0.id + 1) as u64
    } else {
        root.header.id
    };
    let issued = if cow {
        (t0.id + 1) as u64
    } else {
        t0.id
    };
    {
        {
                &&& wrote_one(
                    s0,
                    sm,
                    kept,
                    t0.epoch,
                    root.body.spec_level(),
                    root.body.held(),
                )
                &&& match last_answer(sm) {
                    Err(e) => {
                        &&& r matches Err(got) && got == e
                        &&& s1 == sm
                        &&& t1.root == t0.root
                        &&& t1.id == issued
                    },
                    Ok(_) => match sib {
                        None => r is Ok && s1 == sm && t1.root == Some(kept) && t1.id == issued,
                        Some(new) => if root.body.spec_level() == u32::MAX || issued == u64::MAX {
                            &&& r matches Err(got) && got == ErrorType::Exhausted
                            &&& s1 == sm
                            &&& t1.root == Some(kept)
                            &&& t1.id == issued
                        } else {
                            &&& wrote_one(
                                sm,
                                s1,
                                (issued + 1) as u64,
                                t0.epoch,
                                (root.body.spec_level() + 1) as u32,
                                Held::Internal {
                                    pivots: seq![new.key@],
                                    children: seq![kept, new.id],
                                    pending: Seq::<MsgView>::empty(),
                                },
                            )
                            &&& t1.id == issued + 1
                            &&& match last_answer(s1) {
                                Err(e) => r matches Err(got) && got == e && t1.root == Some(kept),
                                Ok(_) => r is Ok && t1.root == Some((issued + 1) as u64),
                            }
                        },
                    },
                }
            }
    }
}

/// `n0` is the empty leaf that becomes the root of a tree without root, and
/// `ta` is the tree `t0` after it has issued the leaf's id and listed the
/// leaf.
pub open spec fn fresh_root(t0: Tree, n0: Node, ta: Tree) -> bool {
    &&& n0.header.id == t0.id + 1
    &&& n0.header.epoch == t0.epoch
    &&& n0.body is Leaf
    &&& n0.body->Leaf_0.keys@.len() == 0
    &&& n0.body->Leaf_0.vals@.len() == 0
    &&& ta.moved_from(&t0)
    &&& ta.id == t0.id + 1
    &&& ta.root == t0.root
    &&& ta.leafs@ == t0.leafs@.push((t0.id + 1) as u64)
}

/// The root `n0` takes `msgs` in; its failure is the result; else the tree
/// settles the root.
pub open spec fn rooted<S: Store>(
    n0: Node,
    msgs: Seq<MsgView>,
    ta: Tree,
    t1: Tree,
    x0: Transaction,
    x1: Transaction,
    s0: StoreLog<S>,
    s1: StoreLog<S>,
    r: Result<(), ErrorType>,
) -> bool {
    exists|n1: Node, cr: Result<Option<NewChild>, ErrorType>, tm: Tree, xm: Transaction, sm: StoreLog<S>|
        {
            &&& #[trigger] node_took(n0, msgs, n1, cr, ta, tm, x0, xm, s0, sm)
            &&& match cr {
                Err(e) => r matches Err(got) && got == e && t1 == tm && x1 == xm && s1 == sm,
                Ok(sib) => root_settled(n1, sib, tm, t1, xm, x1, sm, s1, r),
            }
        }
}

/// What it is for a tree to take `msgs` in. A tree without root makes an
/// empty leaf its root (without an id left that fails, and nothing changes);
/// else the root is read, and a failed read is the result, with nothing
/// changed. The root takes the messages in and is settled.
pub open spec fn tree_took<S: Store>(
    t0: Tree,
    msgs: Seq<MsgView>,
    t1: Tree,
    x0: Transaction,
    x1: Transaction,
    s0: StoreLog<S>,
    s1: StoreLog<S>,
    r: Result<(), ErrorType>,
) -> bool {
    match t0.root {
        None => if t0.id == u64::MAX {
            &&& r matches Err(e) && e == ErrorType::Exhausted
            &&& t1 == t0
            &&& x1 == x0
            &&& s1 == s0
        } else {
            exists|n0: Node, ta: Tree|
                #[trigger] fresh_root(t0, n0, ta) && rooted(n0, msgs, ta, t1, x0, x1, s0, s1, r)
        },
        Some(id) => exists|loaded: Result<Node, ErrorType>|
            {
                &&& #[trigger] s0.reads(id, loaded)
                &&& match loaded {
                    Err(e) => r matches Err(got) && got == e && t1 == t0 && x1 == x0 && s1 == s0,
                    Ok(n0) => rooted(n0, msgs, t0, t1, x0, x1, s0, s1, r),
                }
            },
    }
}

} // verus!
