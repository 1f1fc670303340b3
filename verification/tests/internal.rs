use betree::buf::Buf;
use betree::index::message::BufMessage;
use betree::internal::Internal;
use betree::node::Body;
use betree::operation::Operation;

fn pending(key: &[u8], data: &[u8]) -> BufMessage {
    BufMessage {
        op: Operation::Assign,
        key: Buf::Owned(key.to_vec()),
        data: Buf::Owned(data.to_vec()),
    }
}

#[test]
fn roundtrip_empty_internal() {
    let input = Internal {
        level: 1,
        data: vec![],
        keys: vec![],
        buffer: vec![],
        children: vec![],
        serde: false,
    };
    let mut wtr = vec![];
    let result = input.serialize(&mut wtr);
    assert!(result.is_ok());
    let output = Internal::deserialize(wtr);
    assert!(output.is_ok());
    let output = output.unwrap();
    assert_eq!(0, output.keys.len());
    assert_eq!(0, output.buffer.len());
    assert_eq!(0, output.children.len());
}

#[test]
fn roundtrip_nonempty_internal() {
    let input = Internal {
        level: 1,
        data: vec![],
        keys: vec![Buf::Owned(b"hello".to_vec())],
        buffer: vec![pending(b"foo", b"bar")],
        children: vec![0, 1],
        serde: false,
    };
    let mut wtr = vec![];
    let result = input.serialize(&mut wtr);
    assert!(result.is_ok());
    assert_eq!(
        8 * std::mem::size_of::<u64>()
            + 2 * std::mem::size_of::<u32>()
            + "hello".len()
            + "foo".len()
            + "bar".len(),
        wtr.len()
    );
    let output = Internal::deserialize(wtr);
    assert!(output.is_ok());
    let output = output.unwrap();
    assert_eq!(b"hello", output.keys[0].bytes());
    assert_eq!(b"foo", output.buffer[0].key.bytes());
    assert_eq!(b"bar", output.buffer[0].data.bytes());
    assert_eq!(Operation::Assign, output.buffer[0].op);
    assert_eq!(vec![0, 1], output.children);
}

#[test]
fn internal_max_run() {
    let input = vec![1, 2, 3, 4];
    let (idx, len, val) = Internal::max_run(&input);
    assert_eq!(0, idx);
    assert_eq!(1, len);
    assert_eq!(1, val);
    let input = vec![1, 1, 3, 4];
    let (idx, len, val) = Internal::max_run(&input);
    assert_eq!(0, idx);
    assert_eq!(2, len);
    assert_eq!(1, val);
    let input = vec![1, 2, 2, 4];
    let (idx, len, val) = Internal::max_run(&input);
    assert_eq!(1, idx);
    assert_eq!(2, len);
    assert_eq!(2, val);
    let input = vec![1, 2, 3, 3];
    let (idx, len, val) = Internal::max_run(&input);
    assert_eq!(2, idx);
    assert_eq!(2, len);
    assert_eq!(3, val);
    let input = vec![1, 1, 1, 1];
    let (idx, len, val) = Internal::max_run(&input);
    assert_eq!(0, idx);
    assert_eq!(4, len);
    assert_eq!(1, val);
}

#[test]
fn split_internal() {
    let mut input = Internal {
        level: 1,
        data: vec![],
        keys: vec![
            Buf::Owned(b"a".to_vec()),
            Buf::Owned(b"b".to_vec()),
            Buf::Owned(b"c".to_vec()),
            Buf::Owned(b"d".to_vec()),
        ],
        buffer: vec![
            pending(b"a", b"w"),
            pending(b"b", b"x"),
            pending(b"c", b"y"),
            pending(b"d", b"z"),
        ],
        children: vec![0, 1, 2, 3, 4],
        serde: false,
    };
    let sibling = input.split();

    assert_eq!(b"c".to_vec(), sibling.key);

    assert_eq!(2, input.keys.len());
    assert_eq!(2, input.buffer.len());
    assert_eq!(3, input.children.len());
    assert_eq!(b"a", input.keys[0].bytes());
    assert_eq!(b"b", input.keys[1].bytes());
    assert_eq!(b"a", input.buffer[0].key.bytes());
    assert_eq!(b"b", input.buffer[1].key.bytes());
    assert_eq!(b"w", input.buffer[0].data.bytes());
    assert_eq!(b"x", input.buffer[1].data.bytes());
    assert_eq!(vec![0, 1, 2], input.children);

    let sibling = match sibling.body {
        Body::Leaf(_) => panic!("expected internal node"),
        Body::Internal(node) => node,
    };
    assert_eq!(1, sibling.keys.len());
    assert_eq!(2, sibling.buffer.len());
    assert_eq!(2, sibling.children.len());
    assert_eq!(b"d", sibling.keys[0].bytes());
    assert_eq!(b"c", sibling.buffer[0].key.bytes());
    assert_eq!(b"d", sibling.buffer[1].key.bytes());
    assert_eq!(b"y", sibling.buffer[0].data.bytes());
    assert_eq!(b"z", sibling.buffer[1].data.bytes());
    assert_eq!(vec![3, 4], sibling.children);

    let mut wtr = vec![];
    let result = sibling.serialize(&mut wtr);
    assert!(result.is_ok());
    let output = Internal::deserialize(wtr);
    assert!(output.is_ok());
    let output = output.unwrap();
    assert_eq!(1, output.keys.len());
    assert_eq!(2, output.buffer.len());
    assert_eq!(2, output.children.len());
    assert_eq!(b"d", output.keys[0].bytes());
    assert_eq!(b"c", output.buffer[0].key.bytes());
    assert_eq!(b"d", output.buffer[1].key.bytes());
    assert_eq!(b"y", output.buffer[0].data.bytes());
    assert_eq!(b"z", output.buffer[1].data.bytes());
    assert_eq!(vec![3, 4], output.children);
}

#[test]
fn split_internal_packs_the_sibling() {
    let mut input = Internal {
        level: 3,
        data: vec![],
        keys: vec![Buf::Owned(b"a".to_vec()), Buf::Owned(b"c".to_vec())],
        buffer: vec![pending(b"z", b"1"), pending(b"b", b"2"), pending(b"c", b"3")],
        children: vec![10, 11, 12],
        serde: false,
    };
    let sibling = input.split();
    assert_eq!(sibling.key, b"c".to_vec());
    assert_eq!(input.keys.len(), 1);
    assert_eq!(input.children, vec![10, 11]);
    assert_eq!(input.buffer.len(), 1);
    assert_eq!(input.buffer[0].key.bytes(), b"b");
    let right = match sibling.body {
        Body::Leaf(_) => panic!("expected internal node"),
        Body::Internal(node) => node,
    };
    assert_eq!(right.level, 3);
    assert_eq!(right.keys.len(), 0);
    assert_eq!(right.children, vec![12]);
    assert_eq!(right.buffer[0].key.bytes(), b"z");
    assert_eq!(right.buffer[1].key.bytes(), b"c");
    assert!(right.serde);
    let mut wtr = vec![];
    assert!(right.serialize(&mut wtr).is_ok());
    assert_eq!(wtr, right.data);
    assert!(matches!(right.buffer[0].key, Buf::Shared(_)));
}

#[test]
fn internal_layout_is_exact() {
    let input = Internal {
        level: 2,
        data: vec![],
        keys: vec![Buf::Owned(b"hello".to_vec())],
        buffer: vec![pending(b"foo", b"quux")],
        children: vec![7, 9],
        serde: false,
    };
    let mut wtr = vec![];
    assert!(input.serialize(&mut wtr).is_ok());
    let mut expected = vec![];
    expected.extend_from_slice(&2u32.to_le_bytes());
    expected.extend_from_slice(&1u64.to_le_bytes());
    expected.extend_from_slice(&2u64.to_le_bytes());
    expected.extend_from_slice(&1u64.to_le_bytes());
    expected.extend_from_slice(&5u64.to_le_bytes());
    expected.extend_from_slice(&7u64.to_le_bytes());
    expected.extend_from_slice(&9u64.to_le_bytes());
    expected.extend_from_slice(&1u32.to_le_bytes());
    expected.extend_from_slice(&3u64.to_le_bytes());
    expected.extend_from_slice(&4u64.to_le_bytes());
    expected.extend_from_slice(b"hello");
    expected.extend_from_slice(b"foo");
    expected.extend_from_slice(b"quux");
    assert_eq!(wtr, expected);
    let output = Internal::deserialize(wtr).unwrap();
    assert_eq!(output.level, 2);
    assert_eq!(output.children, vec![7, 9]);
    assert_eq!(output.buffer[0].data.bytes(), b"quux");
}

#[test]
fn internal_with_unknown_operation_is_refused() {
    let input = Internal {
        level: 1,
        data: vec![],
        keys: vec![],
        buffer: vec![pending(b"k", b"v")],
        children: vec![1],
        serde: false,
    };
    let mut wtr = vec![];
    assert!(input.serialize(&mut wtr).is_ok());
    let at = 4 + 24 + 8;
    assert_eq!(&wtr[at..at + 4], &1u32.to_le_bytes());
    wtr[at] = 2;
    assert_eq!(
        Internal::deserialize(wtr.clone()).err(),
        Some(betree::error::ErrorType::Serialization)
    );
    wtr[at] = 1;
    assert!(Internal::deserialize(wtr.clone()).is_ok());
    for cut in 0..wtr.len() {
        assert!(Internal::deserialize(wtr[..cut].to_vec()).is_err());
    }
}

#[test]
fn flush_picks_longest_run() {
    let mut input = Internal {
        level: 1,
        data: vec![],
        keys: vec![Buf::Owned(b"m".to_vec()), Buf::Owned(b"t".to_vec())],
        buffer: vec![
            pending(b"u", b"5"),
            pending(b"c", b"3"),
            pending(b"a", b"1"),
            pending(b"n", b"4"),
            pending(b"b", b"2"),
        ],
        children: vec![100, 200, 300],
        serde: false,
    };
    let (child, msgs) = input.pick_flush();
    assert_eq!(child, 0);
    let keys: Vec<&[u8]> = msgs.iter().map(|m| &m.key[..]).collect();
    assert_eq!(keys, vec![&b"a"[..], b"b", b"c"]);
    assert_eq!(input.buffer.len(), 2);
    assert_eq!(input.buffer[0].key.bytes(), b"n");
    assert_eq!(input.buffer[1].key.bytes(), b"u");
}

#[test]
fn flush_routes_a_key_equal_to_a_pivot_to_the_right() {
    let mut input = Internal {
        level: 1,
        data: vec![],
        keys: vec![Buf::Owned(b"m".to_vec())],
        buffer: vec![pending(b"m", b"1"), pending(b"m", b"2"), pending(b"a", b"3")],
        children: vec![100, 200],
        serde: false,
    };
    let (child, msgs) = input.pick_flush();
    assert_eq!(child, 1);
    assert_eq!(msgs.len(), 2);
    assert_eq!(msgs[0].data, b"1".to_vec());
    assert_eq!(msgs[1].data, b"2".to_vec());
    assert_eq!(input.buffer.len(), 1);
    assert_eq!(input.buffer[0].key.bytes(), b"a");
}

#[test]
fn flush_breaks_ties_by_the_leftmost_run() {
    let mut input = Internal {
        level: 1,
        data: vec![],
        keys: vec![Buf::Owned(b"m".to_vec())],
        buffer: vec![pending(b"x", b"1"), pending(b"a", b"2")],
        children: vec![100, 200],
        serde: false,
    };
    let (child, msgs) = input.pick_flush();
    assert_eq!(child, 0);
    assert_eq!(msgs.len(), 1);
    assert_eq!(msgs[0].key, b"a".to_vec());
}

#[test]
fn graft_takes_in_a_sibling() {
    let mut input = Internal {
        level: 1,
        data: vec![],
        keys: vec![Buf::Owned(b"m".to_vec())],
        buffer: vec![],
        children: vec![100, 200],
        serde: false,
    };
    let new = betree::node::NewChild { key: b"f".to_vec(), id: 150 };
    assert!(input.graft(0, 101, Some(new)).is_ok());
    assert_eq!(input.children, vec![101, 150, 200]);
    assert_eq!(input.keys[0].bytes(), b"f");
    assert_eq!(input.keys[1].bytes(), b"m");
    let misfit = betree::node::NewChild { key: b"z".to_vec(), id: 160 };
    assert_eq!(
        input.graft(0, 102, Some(misfit)).err(),
        Some(betree::error::ErrorType::Serialization)
    );
    assert_eq!(input.children, vec![101, 150, 200]);
    assert!(input.graft(2, 201, None).is_ok());
    assert_eq!(input.children, vec![101, 150, 201]);
    assert!(input.check());
}
