use betree::error::{ErrorType, IoKind};
use betree::index::message::Message;
use betree::index::store::{Store, StoreLog};
use betree::index::tree::Tree;
use betree::mode::Mode;
use betree::node::{Body, Node};
use betree::operation::Operation;
use betree::transaction::Transaction;

use std::cell::RefCell;
use std::collections::BTreeMap;
use std::collections::BTreeSet;

struct MemStore {
    blobs: BTreeMap<u64, Vec<u8>>,
    writes: Vec<(u64, u64)>,
    deleted: Vec<u64>,
    refuse_delete: BTreeSet<u64>,
}

impl MemStore {
    fn new() -> MemStore {
        MemStore {
            blobs: BTreeMap::new(),
            writes: vec![],
            deleted: vec![],
            refuse_delete: BTreeSet::new(),
        }
    }
}

impl Store for MemStore {
    fn read(&self, id: u64) -> Result<Node, ErrorType> {
        match self.blobs.get(&id) {
            Some(blob) => Node::deserialize(blob.clone()),
            None => Err(ErrorType::IO(IoKind::NotFound)),
        }
    }

    fn write(&mut self, node: &Node) -> Result<(), ErrorType> {
        let mut blob = vec![];
        node.serialize(&mut blob)?;
        self.blobs.insert(node.header.id, blob);
        self.writes.push((node.header.id, node.header.epoch));
        Ok(())
    }

    fn schedule_delete(&mut self, id: u64) -> Result<(), ErrorType> {
        self.deleted.push(id);
        if self.refuse_delete.contains(&id) {
            Err(ErrorType::IO(IoKind::Permission))
        } else {
            Ok(())
        }
    }
}

fn assign(key: &[u8], data: &[u8]) -> Message {
    Message {
        op: Operation::Assign,
        key: key.to_vec(),
        data: data.to_vec(),
    }
}

fn collect(
    store: &StoreLog<MemStore>,
    id: u64,
    level: Option<u32>,
    out: &mut BTreeMap<Vec<u8>, Vec<u8>>,
    seen: &mut Vec<u64>,
) {
    let node = store.read(id).unwrap();
    seen.push(id);
    assert_eq!(node.header.id, id);
    assert!(node.body.check());
    if let Some(level) = level {
        assert_eq!(node.body.level(), level);
    }
    match node.body {
        Body::Leaf(leaf) => {
            for i in 0..leaf.keys.len() {
                if i > 0 {
                    assert!(leaf.keys[i - 1].bytes() < leaf.keys[i].bytes());
                }
                out.insert(leaf.keys[i].to_vec(), leaf.vals[i].to_vec());
            }
        }
        Body::Internal(node) => {
            assert!(node.level >= 1);
            assert_eq!(node.children.len(), node.keys.len() + 1);
            for i in 1..node.keys.len() {
                assert!(node.keys[i - 1].bytes() < node.keys[i].bytes());
            }
            for child in &node.children {
                collect(store, *child, Some(node.level - 1), out, seen);
            }
            for msg in &node.buffer {
                out.insert(msg.key.to_vec(), msg.data.to_vec());
            }
        }
    }
}

fn key_of(i: u32) -> Vec<u8> {
    format!("key{:05}", (i * 7919) % 1000).into_bytes()
}

#[test]
fn tree_keeps_every_write() {
    let mut tree = Tree::new(2, 2, Mode::Test);
    let mut store = StoreLog::new(MemStore::new());
    let mut model: BTreeMap<Vec<u8>, Vec<u8>> = BTreeMap::new();
    for round in 0..4u32 {
        let mut txn = tree.begin_txn().unwrap();
        assert_eq!(txn.epoch, (round + 1) as u64);
        let first_write = store.store().writes.len();
        for i in 0..60u32 {
            let key = key_of(round * 60 + i);
            let data = format!("v{}-{}", round, i).into_bytes();
            model.insert(key.clone(), data.clone());
            assert_eq!(tree.upsert(&mut store, &mut txn, assign(&key, &data)), Ok(()));
        }
        for (_, epoch) in &store.store().writes[first_write..] {
            assert_eq!(*epoch, txn.epoch);
        }
        let superseded = txn.delete.clone();
        let before = store.store().deleted.len();
        assert_eq!(tree.end_txn(&mut store, txn), Ok(()));
        assert_eq!(&store.store().deleted[before..], &superseded[..]);
        assert!(!tree.txn);

        let mut found = BTreeMap::new();
        let mut seen = vec![];
        collect(&store, tree.root.unwrap(), None, &mut found, &mut seen);
        assert_eq!(found, model);
        for id in &seen {
            assert!(*id <= tree.id);
            assert!(!store.store().deleted.contains(id));
        }
    }
    assert!(store.read(tree.root.unwrap()).unwrap().body.level() >= 2);
}

#[test]
fn tree_scan_visits_leaves_in_key_order() {
    let mut tree = Tree::new(3, 2, Mode::Test);
    let mut store = StoreLog::new(MemStore::new());
    let mut txn = tree.begin_txn().unwrap();
    let mut msgs = vec![];
    for i in 0..200u32 {
        let key = key_of(i);
        msgs.push(assign(&key, &key));
        if msgs.len() == 7 {
            assert_eq!(tree.upsert_batch(&mut store, &mut txn, msgs), Ok(()));
            msgs = vec![];
        }
    }
    assert_eq!(tree.upsert_batch(&mut store, &mut txn, msgs), Ok(()));
    assert_eq!(tree.end_txn(&mut store, txn), Ok(()));

    let visited: RefCell<Vec<(Vec<u8>, Vec<u8>)>> = RefCell::new(vec![]);
    let result = tree.scan(&store, |key, val| {
        visited.borrow_mut().push((key.to_vec(), val.to_vec()));
    });
    assert_eq!(result, Ok(()));
    let visited = visited.into_inner();
    assert!(!visited.is_empty());
    for i in 1..visited.len() {
        assert!(visited[i - 1].0 < visited[i].0);
    }
    for (key, val) in &visited {
        assert_eq!(key, val);
    }
    let mut found = BTreeMap::new();
    let mut seen = vec![];
    collect(&store, tree.root.unwrap(), None, &mut found, &mut seen);
    let leaves: Vec<u64> = seen
        .iter()
        .cloned()
        .filter(|id| store.read(*id).unwrap().body.level() == 0)
        .collect();
    assert_eq!(tree.leafs, leaves);
}

#[test]
fn first_upsert_makes_a_leaf_root() {
    let mut tree = Tree::new(4, 16, Mode::Test);
    let mut store = StoreLog::new(MemStore::new());
    let mut txn = tree.begin_txn().unwrap();
    assert_eq!(tree.root, None);
    assert_eq!(tree.upsert(&mut store, &mut txn, assign(b"hello", b"world")), Ok(()));
    assert_eq!(tree.root, Some(1));
    assert_eq!(tree.leafs, vec![1]);
    assert_eq!(store.store().writes, vec![(1, 1)]);
    assert!(txn.delete.is_empty());
    let root = store.read(1).unwrap();
    assert_eq!(root.header.epoch, 1);
    assert_eq!(root.body.leaf().get(b"hello"), Some(&b"world"[..]));
    assert_eq!(tree.end_txn(&mut store, txn), Ok(()));

    let mut txn = tree.begin_txn().unwrap();
    assert_eq!(tree.upsert(&mut store, &mut txn, assign(b"hello", b"again")), Ok(()));
    assert_eq!(tree.root, Some(2));
    assert_eq!(tree.leafs, vec![2]);
    assert_eq!(txn.delete, vec![1]);
    assert_eq!(store.store().writes, vec![(1, 1), (2, 2)]);
    assert_eq!(tree.upsert(&mut store, &mut txn, assign(b"other", b"x")), Ok(()));
    assert_eq!(tree.root, Some(2));
    assert_eq!(txn.delete, vec![1]);
    assert_eq!(tree.end_txn(&mut store, txn), Ok(()));
    assert_eq!(store.store().deleted, vec![1]);
}

#[test]
fn root_grows_when_it_splits() {
    let mut tree = Tree::new(1, 1, Mode::Test);
    let mut store = StoreLog::new(MemStore::new());
    let mut txn = tree.begin_txn().unwrap();
    assert_eq!(tree.upsert(&mut store, &mut txn, assign(b"foo", b"abc")), Ok(()));
    assert_eq!(tree.upsert(&mut store, &mut txn, assign(b"bar", b"xyz")), Ok(()));
    let root = store.read(tree.root.unwrap()).unwrap();
    let top = match root.body {
        Body::Internal(node) => node,
        Body::Leaf(_) => panic!("expected internal node"),
    };
    assert_eq!(top.level, 1);
    assert_eq!(top.keys.len(), 1);
    assert_eq!(top.keys[0].bytes(), b"foo");
    assert_eq!(top.children.len(), 2);
    assert_eq!(tree.leafs, top.children);
    let left = store.read(top.children[0]).unwrap();
    let right = store.read(top.children[1]).unwrap();
    assert_eq!(left.body.leaf().get(b"bar"), Some(&b"xyz"[..]));
    assert_eq!(left.body.leaf().get(b"foo"), None);
    assert_eq!(right.body.leaf().get(b"foo"), Some(&b"abc"[..]));
}

#[test]
fn begin_txn_while_open_fails() {
    let mut tree = Tree::new(4, 16, Mode::Test);
    let txn = tree.begin_txn().unwrap();
    assert_eq!(txn.epoch, 1);
    assert_eq!(tree.begin_txn().err(), Some(ErrorType::TxnAlreadyOpen));
    assert_eq!(tree.epoch, 1);
    assert!(tree.txn);
}

#[test]
fn end_txn_checks_the_transaction() {
    let mut tree = Tree::new(4, 16, Mode::Test);
    let mut store = StoreLog::new(MemStore::new());
    let stray = Transaction { epoch: 0, delete: vec![5] };
    assert_eq!(tree.end_txn(&mut store, stray), Err(ErrorType::TxnClosed));
    let _txn = tree.begin_txn().unwrap();
    let stale = Transaction { epoch: 9, delete: vec![5] };
    assert_eq!(tree.end_txn(&mut store, stale), Err(ErrorType::TxnMismatch));
    assert!(tree.txn);
    assert!(store.store().deleted.is_empty());
}

#[test]
fn end_txn_attempts_every_delete_and_keeps_the_first_error() {
    let mut tree = Tree::new(4, 16, Mode::Test);
    let mut mem = MemStore::new();
    mem.refuse_delete.insert(2);
    mem.refuse_delete.insert(3);
    let mut store = StoreLog::new(mem);
    let mut txn = tree.begin_txn().unwrap();
    txn.delete = vec![1, 2, 3, 4];
    assert_eq!(
        tree.end_txn(&mut store, txn),
        Err(ErrorType::IO(IoKind::Permission))
    );
    assert_eq!(store.store().deleted, vec![1, 2, 3, 4]);
    assert!(tree.txn);
}

#[test]
fn next_id_counts_up() {
    let mut tree = Tree::new(4, 16, Mode::Test);
    assert_eq!(tree.next_id(), 1);
    assert_eq!(tree.next_id(), 2);
    assert_eq!(tree.id, 2);
    tree.id = u64::MAX;
    assert_eq!(tree.fresh_id(), Err(ErrorType::Exhausted));
    assert_eq!(tree.id, u64::MAX);
}

#[test]
fn missing_child_fails_the_upsert() {
    let mut tree = Tree::new(1, 1, Mode::Test);
    let mut store = StoreLog::new(MemStore::new());
    let mut txn = tree.begin_txn().unwrap();
    assert_eq!(tree.upsert(&mut store, &mut txn, assign(b"foo", b"abc")), Ok(()));
    assert_eq!(tree.upsert(&mut store, &mut txn, assign(b"bar", b"xyz")), Ok(()));
    let root = tree.root.unwrap();
    let mut mem = store.into_inner();
    let children: Vec<u64> = mem.blobs.keys().cloned().filter(|id| *id != root).collect();
    for id in children {
        mem.blobs.remove(&id);
    }
    let mut store = StoreLog::new(mem);
    assert_eq!(
        tree.upsert(&mut store, &mut txn, assign(b"baz", b"1")),
        Err(ErrorType::IO(IoKind::NotFound))
    );
}
