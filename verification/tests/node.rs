use betree::buf::Buf;
use betree::error::ErrorType;
use betree::index::message::BufMessage;
use betree::index::tree::Tree;
use betree::internal::Internal;
use betree::leaf::Leaf;
use betree::mode::Mode;
use betree::node::{Body, Header, Node};
use betree::operation::Operation;
use betree::transaction::Transaction;

fn leaf_node() -> Node {
    Node {
        header: Header { id: 3, epoch: 9 },
        body: Body::Leaf(Leaf {
            data: vec![],
            keys: vec![Buf::Owned(b"hello".to_vec())],
            vals: vec![Buf::Owned(b"world".to_vec())],
        }),
    }
}

fn internal_node() -> Node {
    Node {
        header: Header { id: 4, epoch: 2 },
        body: Body::Internal(Internal {
            level: 5,
            data: vec![],
            keys: vec![Buf::Owned(b"m".to_vec())],
            buffer: vec![BufMessage {
                op: Operation::Assign,
                key: Buf::Owned(b"k".to_vec()),
                data: Buf::Owned(b"v".to_vec()),
            }],
            children: vec![11, 12],
            serde: false,
        }),
    }
}

#[test]
fn node_envelope_layout() {
    let node = leaf_node();
    assert_eq!(node.id(), 3);
    assert_eq!(node.body.level(), 0);
    let mut wtr = vec![];
    assert!(node.serialize(&mut wtr).is_ok());
    assert_eq!(&wtr[0..8], &3u64.to_le_bytes());
    assert_eq!(&wtr[8..16], &9u64.to_le_bytes());
    assert_eq!(wtr[16], 0);
    assert_eq!(wtr.len(), 17 + 34);
    let mut body = vec![];
    assert!(node.body.leaf().serialize(&mut body).is_ok());
    assert_eq!(&wtr[17..], &body[..]);
}

#[test]
fn node_roundtrip_leaf() {
    let node = leaf_node();
    let mut wtr = vec![];
    assert!(node.serialize(&mut wtr).is_ok());
    let out = Node::deserialize(wtr).unwrap();
    assert_eq!(out.header.id, 3);
    assert_eq!(out.header.epoch, 9);
    let leaf = out.body.leaf();
    assert_eq!(leaf.keys.len(), 1);
    assert_eq!(leaf.keys[0].bytes(), b"hello");
    assert_eq!(leaf.vals[0].bytes(), b"world");
}

#[test]
fn node_roundtrip_internal() {
    let node = internal_node();
    assert_eq!(node.body.level(), 5);
    let mut wtr = vec![];
    assert!(node.serialize(&mut wtr).is_ok());
    assert_eq!(wtr[16], 1);
    let out = Node::deserialize(wtr).unwrap();
    assert_eq!(out.header.id, 4);
    assert_eq!(out.header.epoch, 2);
    match out.body {
        Body::Internal(node) => {
            assert_eq!(node.level, 5);
            assert_eq!(node.keys[0].bytes(), b"m");
            assert_eq!(node.children, vec![11, 12]);
            assert_eq!(node.buffer[0].key.bytes(), b"k");
            assert_eq!(node.buffer[0].data.bytes(), b"v");
        }
        Body::Leaf(_) => panic!("expected internal node"),
    }
}

#[test]
fn node_with_unknown_tag_is_refused() {
    let mut wtr = vec![];
    assert!(leaf_node().serialize(&mut wtr).is_ok());
    wtr[16] = 2;
    assert_eq!(Node::deserialize(wtr.clone()).err(), Some(ErrorType::Serialization));
    wtr[16] = 0;
    for cut in 0..wtr.len() {
        assert_eq!(
            Node::deserialize(wtr[..cut].to_vec()).err(),
            Some(ErrorType::Serialization)
        );
    }
    assert!(Node::deserialize(wtr).is_ok());
}

#[test]
fn rebind_copies_on_first_write_in_an_epoch() {
    let mut tree = Tree::new(4, 16, Mode::Test);
    let mut txn = tree.begin_txn().unwrap();
    tree.id = 20;
    tree.leafs = vec![7, 3, 8];
    let mut node = leaf_node();
    assert_eq!(node.rebind(&mut tree, &mut txn), Ok(()));
    assert_eq!(node.header.id, 21);
    assert_eq!(node.header.epoch, 1);
    assert_eq!(txn.delete, vec![3]);
    assert_eq!(tree.leafs, vec![7, 21, 8]);
    assert_eq!(node.rebind(&mut tree, &mut txn), Ok(()));
    assert_eq!(node.header.id, 21);
    assert_eq!(txn.delete, vec![3]);
    assert_eq!(tree.id, 21);

    let mut stale = internal_node();
    tree.id = u64::MAX;
    assert_eq!(stale.rebind(&mut tree, &mut txn), Err(ErrorType::Exhausted));
    assert_eq!(stale.header.id, 4);
    assert_eq!(txn.delete, vec![3]);
}

#[test]
fn transaction_starts_empty() {
    let mut tree = Tree::new(4, 16, Mode::Test);
    let txn: Transaction = tree.begin_txn().unwrap();
    assert_eq!(txn.epoch, 1);
    assert!(txn.delete.is_empty());
}
