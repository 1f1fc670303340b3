use betree::buf::Buf;
use betree::error::{ErrorType, IoKind};
use betree::index::message::BufMessage;
use betree::index::store::object_name;
use betree::index::tree::{keep_first, position, Tree};
use betree::internal::Internal;
use betree::mode::Mode;
use betree::operation::Operation;
use betree::pending::{part_at, sort_by_key};
use betree::search::{lower_bound, sorted_keys, upper_bound};

fn naive_max_run(values: &[usize]) -> (usize, usize, usize) {
    let mut best = (0, 0, 0);
    let mut start = 0;
    while start < values.len() {
        let mut end = start + 1;
        while end < values.len() && values[end] == values[start] {
            end += 1;
        }
        if end - start > best.1 {
            best = (start, end - start, values[start]);
        }
        start = end;
    }
    best
}

#[test]
fn max_run_is_the_leftmost_longest_run() {
    let mut state: u64 = 12345;
    for round in 0..300 {
        let len = 1 + round % 12;
        let mut values = vec![];
        for _ in 0..len {
            state = state.wrapping_mul(6364136223846793005).wrapping_add(1442695040888963407);
            values.push(((state >> 33) % 3) as usize);
        }
        assert_eq!(Internal::max_run(&values), naive_max_run(&values));
    }
    assert_eq!(Internal::max_run(&[5]), (0, 1, 5));
    assert_eq!(Internal::max_run(&[2, 2, 1, 1]), (0, 2, 2));
    assert_eq!(Internal::max_run(&[1, 2, 2, 3, 3, 3, 2, 2, 2]), (3, 3, 3));
}

fn pending(key: &[u8], data: &[u8]) -> BufMessage {
    BufMessage {
        op: Operation::Assign,
        key: Buf::Owned(key.to_vec()),
        data: Buf::Owned(data.to_vec()),
    }
}

fn pairs(msgs: &[BufMessage]) -> Vec<(Vec<u8>, Vec<u8>)> {
    msgs.iter().map(|m| (m.key.to_vec(), m.data.to_vec())).collect()
}

#[test]
fn sort_by_key_is_stable() {
    let msgs = vec![
        pending(b"b", b"1"),
        pending(b"a", b"2"),
        pending(b"b", b"3"),
        pending(b"", b"4"),
        pending(b"a", b"5"),
        pending(b"b", b"6"),
    ];
    let mut expected = pairs(&msgs);
    expected.sort_by(|x, y| x.0.cmp(&y.0));
    let sorted = sort_by_key(msgs);
    assert_eq!(pairs(&sorted), expected);
    assert!(sort_by_key(vec![]).is_empty());
}

#[test]
fn part_at_keeps_the_order_on_both_sides() {
    let msgs = vec![
        pending(b"z", b"1"),
        pending(b"a", b"2"),
        pending(b"m", b"3"),
        pending(b"a", b"4"),
        pending(b"n", b"5"),
    ];
    let (left, right) = part_at(msgs, b"m");
    assert_eq!(
        pairs(&left),
        vec![(b"a".to_vec(), b"2".to_vec()), (b"a".to_vec(), b"4".to_vec())]
    );
    assert_eq!(
        pairs(&right),
        vec![
            (b"z".to_vec(), b"1".to_vec()),
            (b"m".to_vec(), b"3".to_vec()),
            (b"n".to_vec(), b"5".to_vec())
        ]
    );
}

#[test]
fn bounds_in_sorted_keys() {
    let keys: Vec<Buf> = [&b"b"[..], b"d", b"f"]
        .iter()
        .map(|k| Buf::Owned(k.to_vec()))
        .collect();
    assert!(sorted_keys(&keys));
    assert_eq!(lower_bound(&keys, b"a"), 0);
    assert_eq!(lower_bound(&keys, b"b"), 0);
    assert_eq!(lower_bound(&keys, b"c"), 1);
    assert_eq!(lower_bound(&keys, b"f"), 2);
    assert_eq!(lower_bound(&keys, b"g"), 3);
    assert_eq!(upper_bound(&keys, b"a"), 0);
    assert_eq!(upper_bound(&keys, b"b"), 1);
    assert_eq!(upper_bound(&keys, b"c"), 1);
    assert_eq!(upper_bound(&keys, b"f"), 3);
    assert_eq!(upper_bound(&keys, b"g"), 3);
    let twice: Vec<Buf> = vec![Buf::Owned(b"a".to_vec()), Buf::Shared(b"a".to_vec())];
    assert!(!sorted_keys(&twice));
    assert!(sorted_keys(&vec![]));
}

#[test]
fn carriers_compare_by_their_bytes() {
    let shared = Buf::Shared(b"abc".to_vec());
    let owned = Buf::Owned(b"abc".to_vec());
    let later = Buf::Owned(b"abd".to_vec());
    assert!(shared == owned);
    assert!(shared != later);
    assert!(shared < later);
    assert!(later > owned);
    assert!(shared <= owned);
    assert!(shared >= owned);
    assert!(Buf::Owned(vec![]) < shared);
}

#[test]
fn keep_first_keeps_the_first_failure() {
    let permission = ErrorType::IO(IoKind::Permission);
    let device = ErrorType::IO(IoKind::Device);
    assert_eq!(keep_first(None, Ok(())), None);
    assert_eq!(keep_first(None, Err(device)), Some(device));
    assert_eq!(keep_first(Some(permission), Err(device)), Some(permission));
    assert_eq!(keep_first(Some(permission), Ok(())), Some(permission));
}

#[test]
fn leaf_list_follows_splits_and_rebinds() {
    assert_eq!(position(&vec![4, 5, 4], 4), 0);
    assert_eq!(position(&vec![4, 5, 4], 5), 1);
    assert_eq!(position(&vec![4, 5, 4], 6), 3);
    let mut tree = Tree::new(4, 16, Mode::Test);
    tree.leafs = vec![1, 2, 3];
    tree.note_split(2, 9);
    assert_eq!(tree.leafs, vec![1, 2, 9, 3]);
    tree.note_split(3, 10);
    assert_eq!(tree.leafs, vec![1, 2, 9, 3, 10]);
    tree.note_split(77, 11);
    assert_eq!(tree.leafs, vec![1, 2, 9, 3, 10, 11]);
    tree.note_rebind(9, 12);
    assert_eq!(tree.leafs, vec![1, 2, 12, 3, 10, 11]);
    tree.note_rebind(77, 13);
    assert_eq!(tree.leafs, vec![1, 2, 12, 3, 10, 11]);
}

#[test]
fn object_names_are_decimal() {
    assert_eq!(object_name(0), b"0".to_vec());
    assert_eq!(object_name(7), b"7".to_vec());
    assert_eq!(object_name(10), b"10".to_vec());
    assert_eq!(object_name(1234567890), b"1234567890".to_vec());
    assert_eq!(object_name(u64::MAX), u64::MAX.to_string().into_bytes());
}
