use betree::buf::Buf;
use betree::index::message::BufMessage;
use betree::operation::Operation;
use betree::writeinternal::WriteInternal;

use std::mem::size_of;

#[test]
fn roundtrip_empty_writeinternal() {
    let input = WriteInternal {
        data: Buf::Shared(vec![]),
        keys: vec![],
        buffer: vec![],
        children: vec![],
    };
    let mut wtr = vec![];
    let result = input.serialize(&mut wtr);
    assert!(result.is_ok());
    assert_eq!(3 * size_of::<u64>(), wtr.len());
    let output = WriteInternal::deserialize(&mut wtr);
    assert!(output.is_ok());
    let output = output.unwrap();
    assert_eq!(0, output.keys.len());
    assert_eq!(0, output.buffer.len());
    assert_eq!(0, output.children.len());
}

#[test]
fn roundtrip_nonempty_writeinternal() {
    let input = WriteInternal {
        data: Buf::Shared(vec![]),
        keys: vec![Buf::Owned(b"hello".to_vec())],
        buffer: vec![BufMessage {
            op: Operation::Assign,
            key: Buf::Owned(b"foo".to_vec()),
            data: Buf::Owned(b"bar".to_vec()),
        }],
        children: vec![0, 1],
    };
    let mut wtr = vec![];
    let result = input.serialize(&mut wtr);
    assert!(result.is_ok());
    assert_eq!(
        8 * size_of::<u64>() + size_of::<u32>() + "hello".len() + "foo".len() + "bar".len(),
        wtr.len()
    );
    let output = WriteInternal::deserialize(&mut wtr);
    assert!(output.is_ok());
    let output = output.unwrap();
    assert_eq!(b"hello", output.keys[0].bytes());
    assert_eq!(b"foo", output.buffer[0].key.bytes());
    assert_eq!(b"bar", output.buffer[0].data.bytes());
    assert_eq!(Operation::Assign, output.buffer[0].op);
    assert_eq!(vec![0, 1], output.children);
}

#[test]
fn writeinternal_max_run() {
    let input = vec![1, 2, 3, 4];
    let (idx, len, val) = WriteInternal::max_run(&input);
    assert_eq!(0, idx);
    assert_eq!(1, len);
    assert_eq!(1, val);
    let input = vec![1, 1, 3, 4];
    let (idx, len, val) = WriteInternal::max_run(&input);
    assert_eq!(0, idx);
    assert_eq!(2, len);
    assert_eq!(1, val);
    let input = vec![1, 2, 2, 4];
    let (idx, len, val) = WriteInternal::max_run(&input);
    assert_eq!(1, idx);
    assert_eq!(2, len);
    assert_eq!(2, val);
    let input = vec![1, 2, 3, 3];
    let (idx, len, val) = WriteInternal::max_run(&input);
    assert_eq!(2, idx);
    assert_eq!(2, len);
    assert_eq!(3, val);
    let input = vec![1, 1, 1, 1];
    let (idx, len, val) = WriteInternal::max_run(&input);
    assert_eq!(0, idx);
    assert_eq!(4, len);
    assert_eq!(1, val);
}

#[test]
fn split_writeinternal() {
    let pending = |key: &[u8], data: &[u8]| BufMessage {
        op: Operation::Assign,
        key: Buf::Owned(key.to_vec()),
        data: Buf::Owned(data.to_vec()),
    };
    let mut input = WriteInternal {
        data: Buf::Owned(vec![]),
        keys: vec![
            Buf::Owned(b"a".to_vec()),
            Buf::Owned(b"b".to_vec()),
            Buf::Owned(b"c".to_vec()),
            Buf::Owned(b"d".to_vec()),
        ],
        buffer: vec![
            pending(b"d", b"z"),
            pending(b"a", b"w"),
            pending(b"c", b"y"),
            pending(b"b", b"x"),
        ],
        children: vec![0, 1, 2, 3, 4],
    };
    let sibling = input.split();
    assert_eq!(sibling.key, b"c".to_vec());
    assert_eq!(input.children, vec![0, 1, 2]);
    assert_eq!(input.keys.len(), 2);
    assert_eq!(input.buffer.len(), 2);
    assert_eq!(input.buffer[0].key.bytes(), b"a");
    assert_eq!(input.buffer[1].key.bytes(), b"b");
    let right = sibling.body;
    assert_eq!(right.children, vec![3, 4]);
    assert_eq!(right.keys.len(), 1);
    assert_eq!(right.keys[0].bytes(), b"d");
    assert_eq!(right.buffer[0].key.bytes(), b"d");
    assert_eq!(right.buffer[1].key.bytes(), b"c");
    let mut wtr = vec![];
    assert!(right.serialize(&mut wtr).is_ok());
    assert_eq!(right.data.bytes(), &wtr[..]);
}
