//! The envelope of a node: its header and its body, a leaf or an internal
//! node.

use crate::codec::{get_u64, lemma_join_assoc, lemma_three, put_u64, u32_at, u64_at};
use crate::error::ErrorType;
use crate::index::message::{Message, msg_views, MsgView};
use crate::index::store::{Store, StoreLog};
use crate::index::tree::{first_at, Tree};
use crate::inner_layout::{inner_at, lemma_inner_roundtrip};
use crate::internal::Internal;
use crate::layout::{leaf_decodable, leaf_keys_at, leaf_vals_at, lemma_leaf_roundtrip};
use crate::intake::{lemma_internal_node_took, lemma_leaf_node_took, node_took, sibling_kept};
use crate::leaf::{lemma_one_assigned, Leaf};
use crate::transaction::Transaction;
use vstd::bytes::{
    lemma_auto_spec_u32_to_from_le_bytes, lemma_auto_spec_u64_to_from_le_bytes,
    spec_u32_to_le_bytes, spec_u64_to_le_bytes,
};
use vstd::prelude::*;

verus! {

/// What every node carries: its id and the epoch of its last write.
pub struct Header {
    pub id: u64,
    /// The epoch of the transaction that last wrote the node.
    pub epoch: u64,
}

/// What a node holds, by its kind.
pub enum Body {
    Leaf(Leaf),
    Internal(Internal),
}

/// A node as the store keeps it.
pub struct Node {
    pub header: Header,
    pub body: Body,
}

/// The right half that a split leaves behind and the key that parts it from
/// the left half.
pub struct NewSibling {
    pub key: Vec<u8>,
    pub body: Body,
}

/// A sibling that was written to the store: its id and the key that parts
/// it from its left neighbour.
pub struct NewChild {
    pub key: Vec<u8>,
    pub id: u64,
}

/// What a node holds, as plain values.
pub enum Held {
    Leaf { keys: Seq<Seq<u8>>, vals: Seq<Seq<u8>> },
    Internal { pivots: Seq<Seq<u8>>, children: Seq<u64>, pending: Seq<MsgView> },
}

/// The length of an encoded header with the tag of the body.
pub open spec fn envelope_len() -> int {
    17
}

impl Body {
    /// The body holds what its kind of node must hold.
    pub open spec fn wf(&self) -> bool {
        match self {
            Body::Leaf(leaf) => leaf.wf(),
            Body::Internal(internal) => internal.wf(),
        }
    }

    /// The height above the leaves.
    pub open spec fn spec_level(&self) -> u32 {
        match self {
            Body::Leaf(_) => 0,
            Body::Internal(internal) => internal.level,
        }
    }

    /// What the body holds, as plain values.
    pub open spec fn held(&self) -> Held {
        match self {
            Body::Leaf(leaf) => Held::Leaf { keys: leaf.keys_view(), vals: leaf.vals_view() },
            Body::Internal(internal) => Held::Internal {
                pivots: internal.pivots(),
                children: internal.children@,
                pending: internal.pending(),
            },
        }
    }

    /// The byte that tells the kind of the body.
    pub open spec fn tag(&self) -> u8 {
        match self {
            Body::Leaf(_) => 0,
            Body::Internal(_) => 1,
        }
    }

    /// The bytes that stand for the body in the store.
    pub open spec fn encoding(&self) -> Seq<u8> {
        match self {
            Body::Leaf(leaf) => leaf.encoding(),
            Body::Internal(internal) => internal.encoding(),
        }
    }

    /// The height above the leaves: 0 for a leaf.
    pub fn level(&self) -> (r: u32)
        ensures
            r == self.spec_level(),
    {
        match self {
            Body::Leaf(_) => 0,
            Body::Internal(internal) => internal.level,
        }
    }

    /// The leaf that the body is.
    pub fn leaf(&self) -> (r: &Leaf)
        requires
            self is Leaf,
        ensures
            *self == Body::Leaf(*r),
    {
        match self {
            Body::Leaf(leaf) => leaf,
            Body::Internal(_) => vstd::pervasive::unreached(),
        }
    }

    /// Whether the body is a leaf.
    pub fn is_leaf(&self) -> (r: bool)
        ensures
            r == (self is Leaf),
    {
        match self {
            Body::Leaf(_) => true,
            Body::Internal(_) => false,
        }
    }

    /// Whether the body holds what its kind of node must hold.
    pub fn check(&self) -> (r: bool)
        ensures
            r == self.wf(),
    {
        match self {
            Body::Leaf(leaf) => leaf.check(),
            Body::Internal(internal) => internal.check(),
        }
    }
}

impl Node {
    /// The body holds what its kind of node must hold.
    pub open spec fn wf(&self) -> bool {
        self.body.wf()
    }

    /// The bytes that stand for the node in the store: id, epoch, the tag of
    /// the body, the body.
    pub open spec fn encoding(&self) -> Seq<u8> {
        spec_u64_to_le_bytes(self.header.id) + spec_u64_to_le_bytes(self.header.epoch)
            + seq![self.body.tag()] + self.body.encoding()
    }

    /// `bytes` encode a node: a header, a known tag, and a body of the
    /// tag's kind.
    pub open spec fn decodable(bytes: Seq<u8>) -> bool {
        &&& bytes.len() >= envelope_len()
        &&& if bytes[16] == 0 {
            leaf_decodable(bytes, envelope_len())
        } else {
            bytes[16] == 1 && Internal::decodable_at(bytes, envelope_len())
        }
    }

    /// The node is the one that `bytes` encode.
    pub open spec fn decoded_from(&self, bytes: Seq<u8>) -> bool {
        &&& self.header.id == u64_at(bytes, 0)
        &&& self.header.epoch == u64_at(bytes, 8)
        &&& self.body.tag() == bytes[16]
        &&& match self.body {
            Body::Leaf(leaf) => {
                &&& leaf.keys_view() == leaf_keys_at(bytes, envelope_len())
                &&& leaf.vals_view() == leaf_vals_at(bytes, envelope_len())
                &&& leaf.keys@.len() == leaf.vals@.len()
            },
            Body::Internal(internal) => {
                &&& internal.level == u32_at(bytes, envelope_len())
                &&& internal.body_view() == inner_at(bytes, envelope_len() + 4)
            },
        }
    }

    /// Decoding inverts encoding: the encoding of a node is decodable, and
    /// the node is the one that its encoding encodes. (Of a leaf this asks
    /// that every key has a value.)
    pub proof fn lemma_roundtrip(&self)
        requires
            self.body is Leaf ==> self.body->Leaf_0.keys@.len() == self.body->Leaf_0.vals@.len(),
        ensures
            Node::decodable(self.encoding()),
            self.decoded_from(self.encoding()),
    {
        lemma_auto_spec_u64_to_from_le_bytes();
        lemma_auto_spec_u32_to_from_le_bytes();
        let id = spec_u64_to_le_bytes(self.header.id);
        let epoch = spec_u64_to_le_bytes(self.header.epoch);
        let tag = seq![self.body.tag()];
        let head = id + epoch + tag;
        let b = self.encoding();
        let empty = Seq::<u8>::empty();
        lemma_three(id, epoch, tag);
        assert(b =~= head + self.body.encoding());
        assert(b.subrange(0, 8) =~= id);
        assert(b.subrange(8, 16) =~= epoch);
        assert(b[16] == self.body.tag());
        match self.body {
            Body::Leaf(leaf) => {
                crate::buf::lemma_views_framable(leaf.keys@);
                crate::buf::lemma_views_framable(leaf.vals@);
                assert(leaf.keys@.len() == leaf.keys.len());
                lemma_leaf_roundtrip(head, leaf.keys_view(), leaf.vals_view(), empty);
                assert(head + leaf.encoding() + empty =~= b);
            },
            Body::Internal(internal) => {
                internal.lemma_framable();
                let level = spec_u32_to_le_bytes(internal.level);
                lemma_inner_roundtrip(head + level, internal.body_view(), empty);
                lemma_join_assoc(
                    head,
                    level,
                    crate::inner_layout::inner_encoding(internal.body_view()),
                );
                assert(head + level + crate::inner_layout::inner_encoding(internal.body_view())
                    + empty =~= b);
                assert(b.subrange(17, 21) =~= level);
            },
        }
    }

    /// The node's id.
    pub fn id(&self) -> (r: u64)
        ensures
            r == self.header.id,
    {
        self.header.id
    }

    /// Appends the node's encoding.
    pub fn serialize(&self, wtr: &mut Vec<u8>) -> (r: Result<(), ErrorType>)
        ensures
            r is Ok,
            final(wtr)@ == old(wtr)@ + self.encoding(),
    {
        put_u64(wtr, self.header.id);
        put_u64(wtr, self.header.epoch);
        let r = match &self.body {
            Body::Leaf(node) => {
                wtr.push(0u8);
                node.serialize(wtr)
            },
            Body::Internal(node) => {
                wtr.push(1u8);
                node.serialize(wtr)
            },
        };
        assert(wtr@ =~= old(wtr)@ + self.encoding());
        r
    }

    /// The node that `input` encodes.
    pub fn deserialize(input: Vec<u8>) -> (r: Result<Node, ErrorType>)
        ensures
            match r {
                Ok(node) => Node::decodable(input@) && node.decoded_from(input@),
                Err(e) => !Node::decodable(input@) && e == ErrorType::Serialization,
            },
    {
        if input.len() < 17 {
            return Err(ErrorType::Serialization);
        }
        let id = get_u64(input.as_slice(), 0).unwrap();
        let epoch = get_u64(input.as_slice(), 8).unwrap();
        let header = Header { id: id, epoch: epoch };
        let tag: u8 = input[16];
        if tag == 0 {
            match Leaf::decode_from(input, 17) {
                Ok(leaf) => Ok(Node { header: header, body: Body::Leaf(leaf) }),
                Err(e) => Err(e),
            }
        } else if tag == 1 {
            match Internal::decode_from(input, 17) {
                Ok(internal) => Ok(Node { header: header, body: Body::Internal(internal) }),
                Err(e) => Err(e),
            }
        } else {
            Err(ErrorType::Serialization)
        }
    }

    /// Copy on write: a node that was last written in an earlier epoch gets a
    /// fresh id and the tree's epoch, and its old id joins the nodes that the
    /// transaction has superseded.
    pub fn rebind(&mut self, tree: &mut Tree, txn: &mut Transaction) -> (r: Result<(), ErrorType>)
        ensures
            final(self).body == old(self).body,
            final(tree).moved_from(old(tree)),
            final(tree).root == old(tree).root,
            final(txn).grown_from(old(txn)),
            if old(self).header.epoch == old(tree).epoch {
                &&& r is Ok
                &&& final(self).header == old(self).header
                &&& *final(tree) == *old(tree)
                &&& *final(txn) == *old(txn)
            } else if old(tree).id == u64::MAX {
                &&& r == Err::<(), ErrorType>(ErrorType::Exhausted)
                &&& final(self).header == old(self).header
                &&& *final(tree) == *old(tree)
                &&& *final(txn) == *old(txn)
            } else {
                &&& r is Ok
                &&& final(self).header.id == old(tree).id + 1
                &&& final(self).header.epoch == old(tree).epoch
                &&& final(tree).id == old(tree).id + 1
                &&& final(txn).delete@ == old(txn).delete@.push(old(self).header.id)
                &&& final(tree).leafs@ == if old(self).body is Leaf && first_at(
                    old(tree).leafs@,
                    old(self).header.id,
                ) < old(tree).leafs@.len() {
                    old(tree).leafs@.update(
                        first_at(old(tree).leafs@, old(self).header.id),
                        (old(tree).id + 1) as u64,
                    )
                } else {
                    old(tree).leafs@
                }
            },
            r is Ok ==> final(self).header.epoch == old(tree).epoch,
    {
        if self.header.epoch == tree.epoch {
            return Ok(());
        }
        let id = match tree.fresh_id() {
            Ok(id) => id,
            Err(e) => { return Err(e); },
        };
        txn.delete.push(self.header.id);
        match &self.body {
            Body::Leaf(_) => {
                tree.note_rebind(self.header.id, id);
            },
            Body::Internal(_) => {},
        }
        self.header.id = id;
        self.header.epoch = tree.epoch;
        Ok(())
    }

    /// Takes in what the body has split off: the sibling gets a fresh id and
    /// the tree's epoch and is written to the store; a leaf's sibling joins
    /// the list of leaves right after the leaf.
    pub fn upsert<S: Store>(
        &mut self,
        body: Option<NewSibling>,
        tree: &mut Tree,
        store: &mut StoreLog<S>,
    ) -> (r: Result<Option<NewChild>, ErrorType>)
        requires
            body is Some ==> body->0.body.wf(),
        ensures
            *final(self) == *old(self),
            final(tree).moved_from(old(tree)),
            final(store).wrote_since(old(store), old(tree).epoch),
            body is Some ==> final(store).wrote_up_to(
                old(store),
                body->0.body.spec_level() as int,
            ),
            body is None ==> final(store).wrote_up_to(old(store), 0),
            sibling_kept(
                old(self).header.id,
                body,
                *old(tree),
                *final(tree),
                *old(store),
                *final(store),
                r,
            ),
    {
        match body {
            Some(inner) => {
                let id = match tree.fresh_id() {
                    Ok(id) => id,
                    Err(e) => { return Err(e); },
                };
                let is_leaf = inner.body.is_leaf();
                let sibling = Node { header: Header { epoch: tree.epoch, id: id }, body: inner.body };
                match store.write(&sibling) {
                    Ok(()) => {},
                    Err(e) => { return Err(e); },
                }
                if is_leaf {
                    tree.note_split(self.header.id, id);
                }
                Ok(Some(NewChild { id: id, key: inner.key }))
            },
            None => Ok(None),
        }
    }

    /// Hands one message to the body, and takes in what the body splits off.
    pub fn upsert_msg<S: Store>(
        &mut self,
        tree: &mut Tree,
        store: &mut StoreLog<S>,
        txn: &mut Transaction,
        msg: Message,
    ) -> (r: Result<Option<NewChild>, ErrorType>)
        requires
            old(self).wf(),
            old(tree).wf(),
        ensures
            final(self).wf(),
            final(self).header == old(self).header,
            final(self).body.spec_level() == old(self).body.spec_level(),
            final(tree).moved_from(old(tree)),
            final(txn).grown_from(old(txn)),
            final(store).wrote_since(old(store), old(tree).epoch),
            final(store).wrote_up_to(old(store), old(self).body.spec_level() as int),
            node_took(
                *old(self),
                seq![msg@],
                *final(self),
                r,
                *old(tree),
                *final(tree),
                *old(txn),
                *final(txn),
                *old(store),
                *final(store),
            ),
    {
        let ghost store0 = *store;
        let ghost tree0 = *tree;
        let ghost level = self.body.spec_level() as int;
        proof {
            if self.body is Leaf {
                lemma_one_assigned(
                    self.body->Leaf_0.keys_view(),
                    self.body->Leaf_0.vals_view(),
                    msg@,
                );
            }
        }
        let body = match &mut self.body {
            Body::Leaf(node) => Ok(node.upsert_msg(tree, msg)),
            Body::Internal(node) => node.upsert_msg(tree, store, txn, msg),
        };
        let ghost store1 = *store;
        let ghost tree1 = *tree;
        let ghost split = body;
        let r = match body {
            Ok(sibling) => {
                let r = self.upsert(sibling, tree, store);
                proof {
                    store.lemma_wrote_since_transitive(&store1, &store0, tree0.epoch);
                    store.lemma_wrote_up_to_transitive(&store1, &store0, level, level, level);
                }
                r
            },
            Err(e) => Err(e),
        };
        proof {
            match old(self).body {
                Body::Leaf(leaf) => {
                    lemma_leaf_node_took(
                        *old(self),
                        seq![msg@],
                        *self,
                        r,
                        tree0,
                        *tree,
                        *old(txn),
                        *txn,
                        store0,
                        *store,
                        split->Ok_0,
                    );
                },
                Body::Internal(internal) => {
                    lemma_internal_node_took(
                        *old(self),
                        seq![msg@],
                        *self,
                        r,
                        tree0,
                        *tree,
                        *old(txn),
                        *txn,
                        store0,
                        *store,
                        split,
                        tree1,
                        store1,
                    );
                },
            }
        }
        r
    }

    /// Hands the messages to the body, and takes in what the body splits
    /// off.
    pub fn upsert_msgs<S: Store>(
        &mut self,
        tree: &mut Tree,
        store: &mut StoreLog<S>,
        txn: &mut Transaction,
        msgs: Vec<Message>,
    ) -> (r: Result<Option<NewChild>, ErrorType>)
        requires
            old(self).wf(),
            old(tree).wf(),
        ensures
            final(self).wf(),
            final(self).header == old(self).header,
            final(self).body.spec_level() == old(self).body.spec_level(),
            final(tree).moved_from(old(tree)),
            final(txn).grown_from(old(txn)),
            final(store).wrote_since(old(store), old(tree).epoch),
            final(store).wrote_up_to(old(store), old(self).body.spec_level() as int),
            node_took(
                *old(self),
                msg_views(msgs@),
                *final(self),
                r,
                *old(tree),
                *final(tree),
                *old(txn),
                *final(txn),
                *old(store),
                *final(store),
            ),
        decreases old(self).body.spec_level(), 2int,
    {
        let ghost store0 = *store;
        let ghost tree0 = *tree;
        let ghost level = self.body.spec_level() as int;
        let ghost batch = msg_views(msgs@);
        let body = match &mut self.body {
            Body::Leaf(node) => Ok(node.upsert_msgs(tree, msgs)),
            Body::Internal(node) => node.upsert_msgs(tree, store, txn, msgs),
        };
        let ghost store1 = *store;
        let ghost tree1 = *tree;
        let ghost split = body;
        let r = match body {
            Ok(sibling) => {
                let r = self.upsert(sibling, tree, store);
                proof {
                    store.lemma_wrote_since_transitive(&store1, &store0, tree0.epoch);
                    store.lemma_wrote_up_to_transitive(&store1, &store0, level, level, level);
                }
                r
            },
            Err(e) => Err(e),
        };
        proof {
            match old(self).body {
                Body::Leaf(leaf) => {
                    lemma_leaf_node_took(
                        *old(self),
                        batch,
                        *self,
                        r,
                        tree0,
                        *tree,
                        *old(txn),
                        *txn,
                        store0,
                        *store,
                        split->Ok_0,
                    );
                },
                Body::Internal(internal) => {
                    lemma_internal_node_took(
                        *old(self),
                        batch,
                        *self,
                        r,
                        tree0,
                        *tree,
                        *old(txn),
                        *txn,
                        store0,
                        *store,
                        split,
                        tree1,
                        store1,
                    );
                },
            }
        }
        r
    }

    /// What `scanner` promises of a call with the key and the value holds.
    pub open spec fn handed<F: Fn(&[u8], &[u8])>(scanner: &F, key: Seq<u8>, val: Seq<u8>) -> bool {
        exists|k: &[u8], v: &[u8]| k@ == key && v@ == val && #[trigger] scanner.ensures((k, v), ())
    }

    /// Hands every key and value of a leaf to `scanner`, in key order, so
    /// that what `scanner` promises of a call holds of each entry. A node that
    /// is no leaf is refused.
    pub fn visit<F: Fn(&[u8], &[u8])>(&self, scanner: &F) -> (r: Result<(), ErrorType>)
        requires
            self.wf(),
            forall|key: &[u8], val: &[u8]| scanner.requires((key, val)),
        ensures
            r == if self.body is Leaf {
                Ok::<(), ErrorType>(())
            } else {
                Err::<(), ErrorType>(ErrorType::Serialization)
            },
            self.body is Leaf ==> forall|i: int|
                0 <= i < self.body->Leaf_0.keys@.len() ==> Node::handed(
                    scanner,
                    #[trigger] self.body->Leaf_0.keys@[i]@,
                    self.body->Leaf_0.vals@[i]@,
                ),
    {
        match &self.body {
            Body::Leaf(leaf) => {
                let mut j: usize = 0;
                while j < leaf.keys.len()
                    invariant
                        0 <= j <= leaf.keys@.len(),
                        leaf.wf(),
                        forall|key: &[u8], val: &[u8]| scanner.requires((key, val)),
                        forall|i: int|
                            0 <= i < j ==> Node::handed(
                                scanner,
                                #[trigger] leaf.keys@[i]@,
                                leaf.vals@[i]@,
                            ),
                    decreases leaf.keys@.len() - j,
                {
                    let key = leaf.keys[j].bytes();
                    let val = leaf.vals[j].bytes();
                    scanner(key, val);
                    assert(scanner.ensures((key, val), ()));
                    j += 1;
                }
                Ok(())
            },
            Body::Internal(_) => Err(ErrorType::Serialization),
        }
    }
}

} // verus!
