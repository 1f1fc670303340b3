use betree::buf::Buf;
use betree::operation::Operation;
use betree::ownmessage::OwnedMessage;
use betree::tree::WriteTree;
use betree::writeleaf::WriteLeaf;

#[test]
fn get_writeleaf() {
    let input = WriteLeaf {
        id: 0,
        epoch: 0,
        data: Buf::Owned(vec![]),
        keys: vec![],
        vals: vec![],
    };
    assert_eq!(input.get(b"hello"), None);
    let input = WriteLeaf {
        id: 0,
        epoch: 0,
        data: Buf::Owned(vec![]),
        keys: vec![Buf::Owned(b"hello".to_vec())],
        vals: vec![Buf::Owned(b"world".to_vec())],
    };
    assert_eq!(input.get(b"hello"), Some(&b"world"[..]));
}

#[test]
fn upsert_writeleaf() {
    let mut tree = WriteTree::new(4, 16);
    let mut input = WriteLeaf {
        id: 0,
        epoch: 0,
        data: Buf::Owned(vec![]),
        keys: vec![],
        vals: vec![],
    };
    let msg = OwnedMessage {
        op: Operation::Assign,
        key: b"hello".to_vec(),
        data: b"world".to_vec(),
    };
    input.upsert_owned(&mut tree, msg);
    assert_eq!(input.get(b"hello"), Some(&b"world"[..]));
    let msg = OwnedMessage {
        op: Operation::Assign,
        key: b"hello".to_vec(),
        data: b"hello".to_vec(),
    };
    input.upsert_owned(&mut tree, msg);
    assert_eq!(input.get(b"hello"), Some(&b"hello"[..]));
    let msg = OwnedMessage {
        op: Operation::Assign,
        key: b"hello".to_vec(),
        data: b"worlds".to_vec(),
    };
    input.upsert_owned(&mut tree, msg);
    assert_eq!(input.get(b"hello"), Some(&b"worlds"[..]));
}

#[test]
fn split_writeleaf() {
    let mut tree = WriteTree::new(1, 1);
    let mut input = WriteLeaf {
        id: 0,
        epoch: 0,
        data: Buf::Owned(vec![]),
        keys: vec![],
        vals: vec![],
    };
    {
        let msg = OwnedMessage {
            op: Operation::Assign,
            key: b"foo".to_vec(),
            data: b"abc".to_vec(),
        };
        let sibling = input.upsert_owned(&mut tree, msg);
        assert!(sibling.is_none());
    }
    {
        let msg = OwnedMessage {
            op: Operation::Assign,
            key: b"bar".to_vec(),
            data: b"xyz".to_vec(),
        };
        let sibling = input.upsert_owned(&mut tree, msg);
        assert!(sibling.is_some());
        let sibling = sibling.unwrap();
        assert_eq!(sibling.get(b"foo"), Some(&b"abc"[..]));
        assert_eq!(sibling.get(b"bar"), None);
        assert_eq!(input.get(b"foo"), None);
        assert_eq!(input.get(b"bar"), Some(&b"xyz"[..]));
    }
}

#[test]
fn split_writeleaf_stamps_the_sibling() {
    let mut tree = WriteTree::new(1, 1);
    tree.begin_txn().unwrap();
    let mut input = WriteLeaf {
        id: 40,
        epoch: 0,
        data: Buf::Owned(vec![]),
        keys: vec![Buf::Owned(b"a".to_vec())],
        vals: vec![Buf::Owned(b"1".to_vec())],
    };
    let msg = OwnedMessage {
        op: Operation::Assign,
        key: b"b".to_vec(),
        data: b"2".to_vec(),
    };
    let sibling = input.upsert_owned(&mut tree, msg).unwrap();
    assert_eq!(sibling.id, 1);
    assert_eq!(sibling.epoch, 1);
    assert_eq!(tree.id, 1);
    assert_eq!(input.id, 40);
    assert_eq!(sibling.data.bytes(), b"b2");
}

#[test]
fn roundtrip_writeleaf() {
    let input = WriteLeaf {
        id: 7,
        epoch: 3,
        data: Buf::Owned(vec![]),
        keys: vec![Buf::Owned(b"hello".to_vec())],
        vals: vec![Buf::Owned(b"world".to_vec())],
    };
    let mut wtr = vec![];
    assert_eq!(input.serialize(&mut wtr), Ok(5 * 8 + 10));
    assert_eq!(&wtr[0..8], &7u64.to_le_bytes());
    assert_eq!(&wtr[8..16], &3u64.to_le_bytes());
    assert_eq!(&wtr[16..24], &1u64.to_le_bytes());
    let output = WriteLeaf::deserialize(&mut wtr).unwrap();
    assert_eq!(output.id, 7);
    assert_eq!(output.epoch, 3);
    assert_eq!(output.keys[0].bytes(), b"hello");
    assert_eq!(output.vals[0].bytes(), b"world");
    assert_eq!(output.data.bytes(), &wtr[..]);
    assert!(WriteLeaf::deserialize(&wtr[..20]).is_err());
}
