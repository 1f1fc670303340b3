//! An internal node that is written: pivots, children and the buffer of
//! pending messages, without a level of its own.

use crate::buf::{all_shared, as_slices, Buf, lemma_views_framable, to_shared, views};
use crate::error::ErrorType;
use crate::index::message::{
    buf_views, BufMessage, codes_of, data_of, data_slices, key_slices, keys_of, Message, msg_views,
    MsgView, op_codes, shared_messages,
};
use crate::index::store::{Store, StoreLog};
use crate::index::tree::Tree;
use crate::intake::{child_step, node_took, stuck, taken_back};
use crate::inner_layout::{
    inner_at, inner_decodable, inner_encoding, inner_framable, InnerView, lemma_inner_roundtrip,
    read_inner, write_inner,
};
use crate::internal::{flushed, Internal, is_longest_run};
use crate::node::{Body, NewChild, NewSibling, Node};
use crate::operation::Operation;
use crate::order::strictly_sorted;
use crate::pending::side;
use crate::transaction::Transaction;
use crate::tree::WriteTree;
use vstd::prelude::*;
use vstd::slice::slice_to_vec;

verus! {

/// `t` is the writing half `w` of a tree as the nodes below know it: with
/// its counters and limits, no leaves listed and no root.
pub open spec fn as_tree(w: WriteTree, t: Tree) -> bool {
    &&& t.epoch == w.epoch
    &&& t.id == w.id
    &&& t.max_pivots == w.max_pivots
    &&& t.max_buffer == w.max_buffer
    &&& t.txn == w.txn
    &&& t.leafs@ == Seq::<u64>::empty()
    &&& t.root is None
}

/// The work was done on the internal node `i` with the result `bi`, for a
/// tree that began as `t0` and ended as `t1`.
pub open spec fn lent(
    i: Internal,
    bi: Result<Option<NewSibling>, ErrorType>,
    t0: Tree,
    t1: Tree,
) -> bool {
    true
}

/// The node `i1` and the result `b` carry what the internal node `i` and its
/// result `bi` hold: the same pivots, children and messages, the same
/// failure, and a sibling with the same key that holds what the sibling of
/// `i` holds, packed into one blob.
pub open spec fn carried(
    i: Internal,
    bi: Result<Option<NewSibling>, ErrorType>,
    i1: WriteInternal,
    b: Result<Option<WriteSibling>, ErrorType>,
) -> bool {
    &&& i1.keys == i.keys
    &&& i1.children == i.children
    &&& i1.buffer == i.buffer
    &&& match bi {
        Err(e) => b matches Err(got) && got == e,
        Ok(None) => b matches Ok(None),
        Ok(Some(s)) => {
            &&& s.body is Internal
            &&& b matches Ok(Some(ws)) && ws.key == s.key && ws.body.keys
                == s.body->Internal_0.keys && ws.body.children == s.body->Internal_0.children
                && ws.body.buffer == s.body->Internal_0.buffer && ws.body.data@
                == ws.body.encoding()
        },
    }
}

/// What it is for an internal node without a level, lent as `i1`, to flush:
/// as for a node with a level, but that a child of any level is taken.
pub open spec fn flushed_any<S: Store>(
    keys: Seq<Buf>,
    children: Seq<u64>,
    pending: Seq<MsgView>,
    i1: Internal,
    b: Result<Option<NewSibling>, ErrorType>,
    t0: Tree,
    t1: Tree,
    x0: Transaction,
    x1: Transaction,
    s0: StoreLog<S>,
    s1: StoreLog<S>,
) -> bool {
    exists|child: usize, sent: Seq<MsgView>, rest: Seq<MsgView>, loaded: Result<Node, ErrorType>|
        #![trigger
            flushed(pending, views(keys), child, sent, rest),
            s0.reads(children[child as int], loaded)
        ]
        {
            &&& flushed(pending, views(keys), child, sent, rest)
            &&& child < children.len()
            &&& s0.reads(children[child as int], loaded)
            &&& match loaded {
                Err(e) => {
                    &&& b matches Err(got) && got == e
                    &&& stuck(keys, children, rest, i1)
                    &&& t1 == t0
                    &&& x1 == x0
                    &&& s1 == s0
                },
                Ok(c0) => exists|
                    c1: Node,
                    cr: Result<Option<NewChild>, ErrorType>,
                    tm: Tree,
                    xm: Transaction,
                    sm: StoreLog<S>,
                |
                    {
                        &&& #[trigger] child_step(c1, cr, tm, xm, sm)
                        &&& node_took(c0, sent, c1, cr, t0, tm, x0, xm, s0, sm)
                        &&& match cr {
                            Err(e) => {
                                &&& b matches Err(got) && got == e
                                &&& stuck(keys, children, rest, i1)
                                &&& t1 == tm
                                &&& x1 == xm
                                &&& s1 == sm
                            },
                            Ok(sib) => taken_back(
                                i1.level,
                                keys,
                                children,
                                rest,
                                child as int,
                                c1,
                                sib,
                                i1,
                                b,
                                tm,
                                t1,
                                xm,
                                x1,
                                sm,
                                s1,
                            ),
                        }
                    },
            }
        }
}

/// What it is for a written internal node that holds `keys`, `children` and
/// `pending` to flush, ending as `i1` with the result `b`: the flush of an
/// internal node that holds the same, for the tree as the nodes below know
/// it; the tree keeps the ids issued.
pub open spec fn write_flushed<S: Store>(
    keys: Seq<Buf>,
    children: Seq<u64>,
    pending: Seq<MsgView>,
    i1: WriteInternal,
    b: Result<Option<WriteSibling>, ErrorType>,
    w0: WriteTree,
    w1: WriteTree,
    x0: Transaction,
    x1: Transaction,
    s0: StoreLog<S>,
    s1: StoreLog<S>,
) -> bool {
    exists|i: Internal, bi: Result<Option<NewSibling>, ErrorType>, t0: Tree, t1: Tree|
        {
            &&& #[trigger] lent(i, bi, t0, t1)
            &&& as_tree(w0, t0)
            &&& w1 == (WriteTree { id: t1.id, ..w0 })
            &&& flushed_any(keys, children, pending, i, bi, t0, t1, x0, x1, s0, s1)
            &&& carried(i, bi, i1, b)
        }
}

/// What it is for the written internal node `i0` to take `msgs` in: they
/// join the buffer, and where the node has as many children as the tree lets
/// it have before it flushes, and any message is pending, the node flushes.
pub open spec fn write_took<S: Store>(
    i0: WriteInternal,
    msgs: Seq<MsgView>,
    i1: WriteInternal,
    b: Result<Option<WriteSibling>, ErrorType>,
    w0: WriteTree,
    w1: WriteTree,
    x0: Transaction,
    x1: Transaction,
    s0: StoreLog<S>,
    s1: StoreLog<S>,
) -> bool {
    let pending = i0.pending() + msgs;
    if i0.children@.len() < w0.max_buffer || pending.len() == 0 {
        &&& b matches Ok(None)
        &&& i1.keys@ == i0.keys@
        &&& i1.children@ == i0.children@
        &&& i1.pending() == pending
        &&& w1 == w0
        &&& x1 == x0
        &&& s1 == s0
    } else {
        write_flushed(i0.keys@, i0.children@, pending, i1, b, w0, w1, x0, x1, s0, s1)
    }
}

/// An internal node under the hand of the writer.
pub struct WriteInternal {
    /// The blob that the node was decoded from or packed into.
    pub data: Buf,
    /// The pivots: each is the least key of the child to its right.
    pub keys: Vec<Buf>,
    /// The pending messages, unordered.
    pub buffer: Vec<BufMessage>,
    /// The ids of the children, one more than there are pivots.
    pub children: Vec<u64>,
}

/// The right half that a split leaves behind and the key that parts it from
/// the left half.
pub struct WriteSibling {
    pub key: Vec<u8>,
    pub body: WriteInternal,
}

impl WriteInternal {
    /// The pivots as byte strings.
    pub open spec fn pivots(&self) -> Seq<Seq<u8>> {
        views(self.keys@)
    }

    /// What the pending messages say, in the order of the buffer.
    pub open spec fn pending(&self) -> Seq<MsgView> {
        buf_views(self.buffer@)
    }

    /// The pivots increase strictly, and the node has one child more than
    /// pivots.
    pub open spec fn wf(&self) -> bool {
        &&& strictly_sorted(self.pivots())
        &&& self.children@.len() == self.keys@.len() + 1
    }

    /// What the node holds, as plain values.
    pub open spec fn body_view(&self) -> InnerView {
        InnerView {
            pivots: self.pivots(),
            children: self.children@,
            codes: codes_of(self.pending()),
            msg_keys: keys_of(self.pending()),
            msg_data: data_of(self.pending()),
        }
    }

    /// The bytes that stand for the node in the store.
    pub open spec fn encoding(&self) -> Seq<u8> {
        inner_encoding(self.body_view())
    }

    /// What a node holds can always be encoded.
    pub proof fn lemma_framable(&self)
        ensures
            inner_framable(self.body_view()),
    {
        let v = self.body_view();
        lemma_views_framable(self.keys@);
        assert(self.keys@.len() == self.keys.len());
        assert(self.children@.len() == self.children.len());
        assert(self.buffer@.len() == self.buffer.len());
        assert forall|i: int| 0 <= i < v.msg_keys.len() implies (#[trigger] v.msg_keys[i]).len()
            <= u64::MAX by {
            lemma_views_framable(seq![self.buffer@[i].key]);
            assert(views(seq![self.buffer@[i].key])[0] == v.msg_keys[i]);
        }
        assert forall|i: int| 0 <= i < v.msg_data.len() implies (#[trigger] v.msg_data[i]).len()
            <= u64::MAX by {
            lemma_views_framable(seq![self.buffer@[i].data]);
            assert(views(seq![self.buffer@[i].data])[0] == v.msg_data[i]);
        }
    }

    /// Decoding inverts encoding: the encoding of a node is decodable and
    /// holds what the node holds.
    pub proof fn lemma_roundtrip(&self)
        ensures
            inner_decodable(self.encoding(), 0),
            inner_at(self.encoding(), 0) == self.body_view(),
    {
        self.lemma_framable();
        let empty = Seq::<u8>::empty();
        lemma_inner_roundtrip(empty, self.body_view(), empty);
        assert(empty + self.encoding() + empty =~= self.encoding());
    }

    /// Appends the node's encoding, and gives the number of bytes appended.
    pub fn serialize(&self, wtr: &mut Vec<u8>) -> (r: Result<usize, ErrorType>)
        ensures
            r == Ok::<usize, ErrorType>(self.encoding().len() as usize),
            final(wtr)@ == old(wtr)@ + self.encoding(),
    {
        let before: usize = wtr.len();
        let pivots = as_slices(&self.keys);
        let codes = op_codes(&self.buffer);
        let msg_keys = key_slices(&self.buffer);
        let msg_data = data_slices(&self.buffer);
        write_inner(wtr, &pivots, &self.children, &codes, &msg_keys, &msg_data);
        Ok(wtr.len() - before)
    }

    /// The node that `input` encodes, its pivots and messages windows of
    /// `input`.
    pub fn deserialize(input: &[u8]) -> (r: Result<WriteInternal, ErrorType>)
        ensures
            match r {
                Ok(node) => {
                    &&& inner_decodable(input@, 0)
                    &&& node.body_view() == inner_at(input@, 0)
                    &&& node.data@ == input@
                    &&& node.data.is_shared()
                    &&& all_shared(node.keys@)
                    &&& forall|i: int|
                        0 <= i < node.buffer@.len() ==> (#[trigger] node.buffer@[i]).key.is_shared()
                            && node.buffer@[i].data.is_shared()
                },
                Err(e) => !inner_decodable(input@, 0) && e == ErrorType::Serialization,
            },
    {
        match read_inner(input, 0) {
            Some(parts) => {
                proof {
                    assert(parts@.codes.len() == parts@.msg_keys.len());
                    assert(parts@.codes.len() == parts@.msg_data.len());
                    assert forall|i: int| 0 <= i < parts.codes@.len() implies Operation::known(
                        #[trigger] parts.codes@[i],
                    ) by {
                        assert(Operation::known(inner_at(input@, 0).codes[i]));
                    }
                }
                let keys = to_shared(&parts.pivots);
                let buffer = shared_messages(&parts.codes, &parts.msg_keys, &parts.msg_data);
                Ok(
                    WriteInternal {
                        data: Buf::Shared(slice_to_vec(input)),
                        keys: keys,
                        buffer: buffer,
                        children: parts.children,
                    },
                )
            },
            None => Err(ErrorType::Serialization),
        }
    }

    /// Puts a message into the buffer.
    fn upsert(&mut self, msg: Message)
        ensures
            final(self).pending() == old(self).pending().push(msg@),
            final(self).data == old(self).data,
            final(self).keys == old(self).keys,
            final(self).children == old(self).children,
    {
        let ghost before = self.pending();
        self.buffer.push(msg.into_buf_message());
        assert(self.pending() =~= before.push(msg@));
    }

    /// The longest run of equal values, the leftmost of the longest: where it
    /// starts, how long it is, and its value.
    pub fn max_run(values: &[usize]) -> (r: (usize, usize, usize))
        requires
            values@.len() > 0,
        ensures
            is_longest_run(values@, r.0 as int, r.1 as int),
            r.2 == values@[r.0 as int],
    {
        Internal::max_run(values)
    }

    /// Hands the node's pivots, messages and children over to an internal
    /// node of level 1, for the work that both kinds of node share.
    fn lend(&mut self) -> (r: Internal)
        ensures
            r.keys == old(self).keys,
            r.buffer == old(self).buffer,
            r.children == old(self).children,
            r.level == 1,
            final(self).data == old(self).data,
    {
        let mut keys: Vec<Buf> = Vec::new();
        let mut buffer: Vec<BufMessage> = Vec::new();
        let mut children: Vec<u64> = Vec::new();
        core::mem::swap(&mut self.keys, &mut keys);
        core::mem::swap(&mut self.buffer, &mut buffer);
        core::mem::swap(&mut self.children, &mut children);
        Internal {
            level: 1,
            data: Vec::new(),
            keys: keys,
            buffer: buffer,
            children: children,
            serde: false,
        }
    }

    /// Takes the pivots, messages and children back.
    fn take_back(&mut self, node: Internal)
        ensures
            final(self).keys == node.keys,
            final(self).buffer == node.buffer,
            final(self).children == node.children,
            final(self).data == old(self).data,
    {
        self.keys = node.keys;
        self.buffer = node.buffer;
        self.children = node.children;
    }

    /// The node that holds what `node` holds, its blob its encoding.
    fn packed_from(node: Internal) -> (r: WriteInternal)
        ensures
            r.keys == node.keys,
            r.buffer == node.buffer,
            r.children == node.children,
            r.data@ == r.encoding(),
            !r.data.is_shared(),
    {
        let mut out = WriteInternal {
            data: Buf::Owned(Vec::new()),
            keys: node.keys,
            buffer: node.buffer,
            children: node.children,
        };
        let mut blob: Vec<u8> = Vec::new();
        let _ = out.serialize(&mut blob);
        assert(blob@ =~= out.encoding());
        out.data = Buf::Owned(blob);
        out
    }

    /// Parts the node at its median pivot, which leaves the node: the pivots
    /// and children to its right and the messages whose key is at least the
    /// pivot leave for a new node, packed into one blob.
    pub fn split(&mut self) -> (r: WriteSibling)
        requires
            old(self).wf(),
            old(self).keys@.len() >= 1,
        ensures
            final(self).wf(),
            final(self).data == old(self).data,
            final(self).keys@ == old(self).keys@.take(old(self).keys@.len() as int / 2),
            final(self).children@ == old(self).children@.take(
                old(self).keys@.len() as int / 2 + 1,
            ),
            final(self).pending() == side(
                old(self).pending(),
                old(self).pivots()[old(self).keys@.len() as int / 2],
                false,
            ),
            r.key@ == old(self).pivots()[old(self).keys@.len() as int / 2],
            r.body.wf(),
            r.body.pivots() == old(self).pivots().skip(old(self).keys@.len() as int / 2 + 1),
            r.body.children@ == old(self).children@.skip(old(self).keys@.len() as int / 2 + 1),
            r.body.pending() == side(
                old(self).pending(),
                old(self).pivots()[old(self).keys@.len() as int / 2],
                true,
            ),
            r.body.data@ == r.body.encoding(),
            all_shared(r.body.keys@),
    {
        let mut node = self.lend();
        let sibling = node.split();
        self.take_back(node);
        match sibling.body {
            Body::Internal(right) => WriteSibling {
                key: sibling.key,
                body: WriteInternal::packed_from(right),
            },
            Body::Leaf(_) => vstd::pervasive::unreached(),
        }
    }

    /// Flushes the buffer towards one child: the longest run of messages
    /// bound for one child leaves the buffer; the child is read, takes the
    /// messages in, is rebound if it was last written in an earlier epoch,
    /// and is written back; the node takes in the child's id and what the
    /// child has split off, and splits itself if it has reached the limit.
    pub fn parent_to_child<S: Store>(
        &mut self,
        tree: &mut WriteTree,
        store: &mut StoreLog<S>,
        txn: &mut Transaction,
    ) -> (r: Result<Option<WriteSibling>, ErrorType>)
        requires
            old(self).wf(),
            old(self).buffer@.len() > 0,
            old(tree).wf(),
        ensures
            final(self).wf(),
            final(self).data == old(self).data,
            final(tree).moved_from(old(tree)),
            final(txn).grown_from(old(txn)),
            final(store).wrote_since(old(store), old(tree).epoch),
            r matches Ok(Some(sibling)) ==> sibling.body.wf(),
            write_flushed(
                old(self).keys@,
                old(self).children@,
                old(self).pending(),
                *final(self),
                r,
                *old(tree),
                *final(tree),
                *old(txn),
                *final(txn),
                *old(store),
                *final(store),
            ),
    {
        let ghost store0 = *store;
        let ghost txn0 = *txn;
        let mut below = tree.to_tree();
        let ghost below0 = below;
        let mut node = self.lend();
        let (idx, msgs) = node.pick_flush();
        let ghost rest = node.pending();
        let ghost sent = msg_views(msgs@);
        let loaded = store.read(node.children[idx]);
        let ghost seen = loaded;
        let r = match loaded {
            Ok(child) => {
                let mut child = child;
                let taken = child.upsert_msgs(&mut below, store, txn, msgs);
                let ghost took = taken;
                let ghost child1 = child;
                let ghost store1 = *store;
                let ghost below1 = below;
                let ghost txn1 = *txn;
                proof {
                    assert(child_step(child1, took, below1, txn1, store1));
                }
                match taken {
                    Ok(sibling) => {
                        let r = node.settle_child(&mut below, store, txn, idx, child, sibling);
                        proof {
                            store.lemma_wrote_since_transitive(&store1, &store0, old(tree).epoch);
                        }
                        r
                    },
                    Err(e) => Err(e),
                }
            },
            Err(e) => Err(e),
        };
        tree.id = below.id;
        let ghost lent_r = r;
        let ghost lent_node = node;
        proof {
            assert(views(old(self).keys@) == old(self).pivots());
            assert(flushed(old(self).pending(), views(old(self).keys@), idx, sent, rest));
            assert(store0.reads(old(self).children@[idx as int], seen));
            assert(flushed_any(
                old(self).keys@,
                old(self).children@,
                old(self).pending(),
                lent_node,
                lent_r,
                below0,
                below,
                txn0,
                *txn,
                store0,
                *store,
            ));
            assert(lent(lent_node, lent_r, below0, below));
        }
        self.take_back(node);
        match r {
            Ok(Some(sibling)) => match sibling.body {
                Body::Internal(right) => Ok(
                    Some(WriteSibling { key: sibling.key, body: WriteInternal::packed_from(right) }),
                ),
                Body::Leaf(_) => vstd::pervasive::unreached(),
            },
            Ok(None) => Ok(None),
            Err(e) => Err(e),
        }
    }

    /// Buffers one message, and flushes if the node has as many children as
    /// the tree lets it have before it flushes.
    pub fn upsert_msg<S: Store>(
        &mut self,
        tree: &mut WriteTree,
        store: &mut StoreLog<S>,
        txn: &mut Transaction,
        msg: Message,
    ) -> (r: Result<Option<WriteSibling>, ErrorType>)
        requires
            old(self).wf(),
            old(tree).wf(),
        ensures
            final(self).wf(),
            final(self).data == old(self).data,
            final(tree).moved_from(old(tree)),
            final(txn).grown_from(old(txn)),
            final(store).wrote_since(old(store), old(tree).epoch),
            r matches Ok(Some(sibling)) ==> sibling.body.wf(),
            write_took(
                *old(self),
                seq![msg@],
                *final(self),
                r,
                *old(tree),
                *final(tree),
                *old(txn),
                *final(txn),
                *old(store),
                *final(store),
            ),
    {
        self.upsert(msg);
        proof {
            assert(self.pending() =~= old(self).pending() + seq![msg@]);
            assert(self.buffer@.len() == self.pending().len());
        }
        if self.children.len() < tree.max_buffer {
            return Ok(None);
        }
        self.parent_to_child(tree, store, txn)
    }

    /// Buffers the messages, and flushes if the node has as many children as
    /// the tree lets it have before it flushes, and any message is pending.
    pub fn upsert_msgs<S: Store>(
        &mut self,
        tree: &mut WriteTree,
        store: &mut StoreLog<S>,
        txn: &mut Transaction,
        msgs: Vec<Message>,
    ) -> (r: Result<Option<WriteSibling>, ErrorType>)
        requires
            old(self).wf(),
            old(tree).wf(),
        ensures
            final(self).wf(),
            final(self).data == old(self).data,
            final(tree).moved_from(old(tree)),
            final(txn).grown_from(old(txn)),
            final(store).wrote_since(old(store), old(tree).epoch),
            r matches Ok(Some(sibling)) ==> sibling.body.wf(),
            write_took(
                *old(self),
                msg_views(msgs@),
                *final(self),
                r,
                *old(tree),
                *final(tree),
                *old(txn),
                *final(txn),
                *old(store),
                *final(store),
            ),
    {
        let ghost all = msg_views(msgs@);
        let ghost before = self.pending();
        let count: usize = msgs.len();
        let mut rest = crate::util::reversed(msgs);
        let mut done: usize = 0;
        assert(before + all.take(0) =~= before);
        while done < count
            invariant
                0 <= done <= count,
                count == all.len(),
                rest@.len() == count - done,
                forall|j: int|
                    0 <= j < rest@.len() ==> (#[trigger] rest@[j])@ == all[count - 1 - j],
                self.pending() == before + all.take(done as int),
                self.data == old(self).data,
                self.keys == old(self).keys,
                self.children == old(self).children,
                self.wf(),
            decreases count - done,
        {
            let msg = rest.pop().unwrap();
            assert(msg@ == all[done as int]);
            self.upsert(msg);
            assert(before + all.take(done + 1) =~= (before + all.take(done as int)).push(
                all[done as int],
            ));
            done += 1;
        }
        proof {
            assert(all.take(count as int) =~= all);
            assert(self.buffer@.len() == self.pending().len());
        }
        if self.children.len() < tree.max_buffer || self.buffer.len() == 0 {
            return Ok(None);
        }
        self.parent_to_child(tree, store, txn)
    }
}

} // verus!
