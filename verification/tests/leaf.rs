use betree::buf::Buf;
use betree::index::message::Message;
use betree::index::tree::Tree;
use betree::leaf::Leaf;
use betree::mode::Mode;
use betree::node::Body;
use betree::operation::Operation;

fn assign(key: &[u8], data: &[u8]) -> Message {
    Message {
        op: Operation::Assign,
        key: key.to_vec(),
        data: data.to_vec(),
    }
}

fn empty_leaf() -> Leaf {
    Leaf {
        data: vec![],
        keys: vec![],
        vals: vec![],
    }
}

#[test]
fn get_leaf() {
    let input = empty_leaf();
    assert_eq!(input.get(b"hello"), None);
    let input = Leaf {
        data: vec![],
        keys: vec![Buf::Owned(b"hello".to_vec())],
        vals: vec![Buf::Owned(b"world".to_vec())],
    };
    assert_eq!(input.get(b"hello"), Some(&b"world"[..]));
}

#[test]
fn upsert_leaf() {
    let mut tree = Tree::new(4, 16, Mode::Test);
    let mut input = empty_leaf();
    input.upsert_msg(&mut tree, assign(b"hello", b"world"));
    assert_eq!(input.get(b"hello"), Some(&b"world"[..]));
    input.upsert_msg(&mut tree, assign(b"hello", b"hello"));
    assert_eq!(input.get(b"hello"), Some(&b"hello"[..]));
    input.upsert_msg(&mut tree, assign(b"hello", b"worlds"));
    assert_eq!(input.get(b"hello"), Some(&b"worlds"[..]));
}

#[test]
fn roundtrip_empty_leaf() {
    let input = empty_leaf();
    let mut wtr = vec![];
    let result = input.serialize(&mut wtr);
    assert!(result.is_ok());
    let output = Leaf::deserialize(wtr);
    assert!(output.is_ok());
    let output = output.unwrap();
    assert_eq!(0, output.keys.len());
    assert_eq!(0, output.vals.len());
}

#[test]
fn roundtrip_nonempty_leaf() {
    let input = Leaf {
        data: vec![],
        keys: vec![Buf::Owned(b"hello".to_vec())],
        vals: vec![Buf::Owned(b"world".to_vec())],
    };
    let mut wtr = vec![];
    let result = input.serialize(&mut wtr);
    assert!(result.is_ok());
    assert_eq!(
        3 * std::mem::size_of::<u64>() + "hello".len() + "world".len(),
        wtr.len()
    );
    let output = Leaf::deserialize(wtr);
    assert!(output.is_ok());
    let output = output.unwrap();
    assert_eq!(b"hello", output.keys[0].bytes());
    assert_eq!(b"world", output.vals[0].bytes());
}

#[test]
fn split_leaf() {
    let mut tree = Tree::new(1, 1, Mode::Test);
    let mut input = empty_leaf();
    {
        let sibling = input.upsert_msg(&mut tree, assign(b"foo", b"abc"));
        assert!(sibling.is_none());
    }
    {
        let sibling = input.upsert_msg(&mut tree, assign(b"bar", b"xyz"));
        assert!(sibling.is_some());
        let sibling = match sibling.unwrap().body {
            Body::Leaf(node) => node,
            Body::Internal(_) => panic!("expected leaf node"),
        };
        assert_eq!(sibling.get(b"foo"), Some(&b"abc"[..]));
        assert_eq!(sibling.get(b"bar"), None);
        assert_eq!(input.get(b"foo"), None);
        assert_eq!(input.get(b"bar"), Some(&b"xyz"[..]));
    }
}

#[test]
fn empty_leaf_is_eight_zero_bytes() {
    let mut wtr = vec![];
    assert!(empty_leaf().serialize(&mut wtr).is_ok());
    assert_eq!(wtr, vec![0u8; 8]);
}

#[test]
fn single_entry_leaf_layout() {
    let mut tree = Tree::new(4, 16, Mode::Test);
    let mut leaf = empty_leaf();
    assert!(leaf.upsert_msg(&mut tree, assign(b"hello", b"world")).is_none());
    assert_eq!(leaf.get(b"hello"), Some(&b"world"[..]));
    let mut wtr = vec![];
    assert!(leaf.serialize(&mut wtr).is_ok());
    assert_eq!(wtr.len(), 34);
    let mut expected = vec![];
    expected.extend_from_slice(&1u64.to_le_bytes());
    expected.extend_from_slice(&5u64.to_le_bytes());
    expected.extend_from_slice(&5u64.to_le_bytes());
    expected.extend_from_slice(b"hello");
    expected.extend_from_slice(b"world");
    assert_eq!(wtr, expected);
}

#[test]
fn split_leaf_separator_and_blob() {
    let mut tree = Tree::new(1, 1, Mode::Test);
    let mut leaf = empty_leaf();
    assert!(leaf.upsert_msg(&mut tree, assign(b"foo", b"abc")).is_none());
    let sibling = leaf.upsert_msg(&mut tree, assign(b"bar", b"xyz")).unwrap();
    assert_eq!(sibling.key, b"foo".to_vec());
    let right = match sibling.body {
        Body::Leaf(node) => node,
        Body::Internal(_) => panic!("expected leaf node"),
    };
    assert_eq!(leaf.keys.len(), 1);
    assert_eq!(leaf.keys[0].bytes(), b"bar");
    assert_eq!(leaf.vals[0].bytes(), b"xyz");
    assert_eq!(right.keys.len(), 1);
    assert_eq!(right.keys[0].bytes(), b"foo");
    assert_eq!(right.vals[0].bytes(), b"abc");
    assert_eq!(right.data, b"fooabc".to_vec());
    assert!(matches!(right.keys[0], Buf::Shared(_)));
    assert!(matches!(right.vals[0], Buf::Shared(_)));
}

#[test]
fn leaf_keys_stay_sorted() {
    let mut tree = Tree::new(50, 50, Mode::Test);
    let mut leaf = empty_leaf();
    for key in [&b"m"[..], b"c", b"x", b"a", b"mm", b"", b"c"] {
        assert!(leaf.upsert_msg(&mut tree, assign(key, key)).is_none());
    }
    let keys: Vec<&[u8]> = leaf.keys.iter().map(|k| k.bytes()).collect();
    assert_eq!(keys, vec![&b""[..], b"a", b"c", b"m", b"mm", b"x"]);
    assert!(leaf.check());
    for i in 0..leaf.keys.len() {
        assert_eq!(leaf.keys[i].bytes(), leaf.vals[i].bytes());
    }
}

#[test]
fn upsert_batch_leaf_last_write_wins() {
    let mut tree = Tree::new(50, 50, Mode::Test);
    let mut leaf = empty_leaf();
    let msgs = vec![assign(b"k", b"1"), assign(b"j", b"2"), assign(b"k", b"3")];
    assert!(leaf.upsert_msgs(&mut tree, msgs).is_none());
    assert_eq!(leaf.get(b"k"), Some(&b"3"[..]));
    assert_eq!(leaf.get(b"j"), Some(&b"2"[..]));
    assert_eq!(leaf.keys.len(), 2);
}

#[test]
fn deserialize_truncated_leaf_fails() {
    let leaf = Leaf {
        data: vec![],
        keys: vec![Buf::Owned(b"hello".to_vec())],
        vals: vec![Buf::Owned(b"world".to_vec())],
    };
    let mut wtr = vec![];
    assert!(leaf.serialize(&mut wtr).is_ok());
    for cut in 0..wtr.len() {
        let short = wtr[..cut].to_vec();
        assert_eq!(
            Leaf::deserialize(short).err(),
            Some(betree::error::ErrorType::Serialization)
        );
    }
    let huge = u64::MAX.to_le_bytes().to_vec();
    assert!(Leaf::deserialize(huge).is_err());
}

#[test]
fn deserialized_leaf_slots_are_shared_and_applied_in_place() {
    let leaf = Leaf {
        data: vec![],
        keys: vec![Buf::Owned(b"hello".to_vec())],
        vals: vec![Buf::Owned(b"world".to_vec())],
    };
    let mut wtr = vec![];
    assert!(leaf.serialize(&mut wtr).is_ok());
    let mut out = Leaf::deserialize(wtr.clone()).unwrap();
    assert_eq!(out.data, wtr);
    assert!(matches!(out.vals[0], Buf::Shared(_)));
    out.upsert(assign(b"hello", b"WORLD"));
    assert!(matches!(out.vals[0], Buf::Shared(_)));
    assert_eq!(out.vals[0].bytes(), b"WORLD");
    out.upsert(assign(b"hello", b"WORLD"));
    assert!(matches!(out.vals[0], Buf::Shared(_)));
    assert_eq!(out.vals[0].bytes(), b"WORLD");
    out.upsert(assign(b"hello", b"longer value"));
    assert!(matches!(out.vals[0], Buf::Owned(_)));
    assert_eq!(out.vals[0].bytes(), b"longer value");
}
