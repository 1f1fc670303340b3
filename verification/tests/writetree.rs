use betree::buf::Buf;
use betree::error::{ErrorType, IoKind};
use betree::index::message::{BufMessage, Message};
use betree::index::store::{Store, StoreLog};
use betree::leaf::Leaf;
use betree::node::{Body, Header, Node};
use betree::operation::Operation;
use betree::transaction::Transaction;
use betree::tree::{ReadTree, WriteTree};
use betree::writeinternal::WriteInternal;

use std::cell::RefCell;
use std::collections::BTreeMap;

struct MapStore {
    blobs: BTreeMap<u64, Vec<u8>>,
    deleted: Vec<u64>,
}

impl Store for MapStore {
    fn read(&self, id: u64) -> Result<Node, ErrorType> {
        match self.blobs.get(&id) {
            Some(blob) => Node::deserialize(blob.clone()),
            None => Err(ErrorType::IO(IoKind::NotFound)),
        }
    }

    fn write(&mut self, node: &Node) -> Result<(), ErrorType> {
        let mut blob = vec![];
        node.serialize(&mut blob)?;
        self.blobs.insert(node.header.id, blob);
        Ok(())
    }

    fn schedule_delete(&mut self, id: u64) -> Result<(), ErrorType> {
        self.deleted.push(id);
        Err(ErrorType::IO(IoKind::Device))
    }
}

fn store_with_leaf(id: u64, epoch: u64, entries: &[(&[u8], &[u8])]) -> StoreLog<MapStore> {
    let leaf = Leaf {
        data: vec![],
        keys: entries.iter().map(|e| Buf::Owned(e.0.to_vec())).collect(),
        vals: entries.iter().map(|e| Buf::Owned(e.1.to_vec())).collect(),
    };
    let node = Node {
        header: Header { id: id, epoch: epoch },
        body: Body::Leaf(leaf),
    };
    let mut store = MapStore { blobs: BTreeMap::new(), deleted: vec![] };
    store.write(&node).unwrap();
    StoreLog::new(store)
}

#[test]
fn writetree_transactions() {
    let mut tree = WriteTree::new(4, 16);
    assert_eq!(tree.next_id(), 1);
    let mut store = store_with_leaf(1, 0, &[]);
    let stray = Transaction { epoch: 0, delete: vec![] };
    assert_eq!(tree.end_txn(&mut store, stray), Some(ErrorType::TxnClosed));
    let txn = tree.begin_txn().unwrap();
    assert_eq!(txn.epoch, 1);
    assert_eq!(tree.begin_txn().err(), Some(ErrorType::TxnAlreadyOpen));
    let other = Transaction { epoch: 2, delete: vec![] };
    assert_eq!(tree.end_txn(&mut store, other), Some(ErrorType::TxnMismatch));
    assert_eq!(tree.end_txn(&mut store, txn), None);
    assert!(!tree.txn);
    let mut txn = tree.begin_txn().unwrap();
    assert_eq!(txn.epoch, 2);
    txn.delete = vec![8, 9];
    assert_eq!(
        tree.end_txn(&mut store, txn),
        Some(ErrorType::IO(IoKind::Device))
    );
    assert_eq!(store.store().deleted, vec![8, 9]);
    assert!(tree.txn);
}

#[test]
fn readtree_scans_its_leaves() {
    let store = store_with_leaf(5, 1, &[(b"a", b"1"), (b"b", b"2")]);
    let mut tree = ReadTree::new();
    let seen: RefCell<Vec<(Vec<u8>, Vec<u8>)>> = RefCell::new(vec![]);
    assert_eq!(tree.scan(&store, |_, _| panic!("no leaf to visit")), Ok(()));
    tree.rleafs = vec![5];
    assert_eq!(
        tree.scan(&store, |k, v| seen.borrow_mut().push((k.to_vec(), v.to_vec()))),
        Ok(())
    );
    assert_eq!(
        seen.into_inner(),
        vec![(b"a".to_vec(), b"1".to_vec()), (b"b".to_vec(), b"2".to_vec())]
    );
    tree.rleafs = vec![5, 6];
    assert_eq!(
        tree.scan(&store, |_, _| ()),
        Err(ErrorType::IO(IoKind::NotFound))
    );
}

#[test]
fn writeinternal_flushes_into_its_child() {
    let mut store = store_with_leaf(1, 0, &[(b"b", b"old")]);
    let mut tree = WriteTree::new(4, 1);
    tree.id = 1;
    let mut txn = tree.begin_txn().unwrap();
    let mut node = WriteInternal {
        data: Buf::Owned(vec![]),
        keys: vec![],
        buffer: vec![BufMessage {
            op: Operation::Assign,
            key: Buf::Owned(b"a".to_vec()),
            data: Buf::Owned(b"1".to_vec()),
        }],
        children: vec![1],
    };
    let msg = Message {
        op: Operation::Assign,
        key: b"b".to_vec(),
        data: b"new".to_vec(),
    };
    let result = node.upsert_msg(&mut tree, &mut store, &mut txn, msg);
    assert!(matches!(result, Ok(None)));
    assert!(node.buffer.is_empty());
    assert_eq!(node.children, vec![2]);
    assert_eq!(tree.id, 2);
    assert_eq!(txn.delete, vec![1]);
    let child = store.read(2).unwrap();
    assert_eq!(child.header.epoch, 1);
    assert_eq!(child.body.leaf().get(b"a"), Some(&b"1"[..]));
    assert_eq!(child.body.leaf().get(b"b"), Some(&b"new"[..]));
}

#[test]
fn writeinternal_buffers_below_the_limit() {
    let mut store = store_with_leaf(1, 0, &[]);
    let mut tree = WriteTree::new(4, 16);
    let mut txn = tree.begin_txn().unwrap();
    let mut node = WriteInternal {
        data: Buf::Owned(vec![]),
        keys: vec![],
        buffer: vec![],
        children: vec![1],
    };
    let msgs = vec![
        Message { op: Operation::Assign, key: b"k".to_vec(), data: b"1".to_vec() },
        Message { op: Operation::Assign, key: b"j".to_vec(), data: b"2".to_vec() },
    ];
    assert!(matches!(node.upsert_msgs(&mut tree, &mut store, &mut txn, msgs), Ok(None)));
    assert_eq!(node.buffer.len(), 2);
    assert_eq!(node.buffer[0].key.bytes(), b"k");
    assert_eq!(node.buffer[1].key.bytes(), b"j");
    assert!(txn.delete.is_empty());
}
