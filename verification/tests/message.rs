use betree::buf::Buf;
use betree::index::message::{BufMessage, Message};
use betree::message::Message as ViewMessage;
use betree::message::OwnedMessage as OwnedViewMessage;
use betree::operation::Operation;
use betree::order::{bytes_equal, lex_less};
use betree::ownmessage::OwnedMessage;

#[test]
fn operation_code_is_one() {
    assert_eq!(Operation::Assign.serialize(), 1);
    assert_eq!(Operation::deserialize(1), Operation::Assign);
    assert_eq!(Operation::decode(1), Some(Operation::Assign));
    assert_eq!(Operation::decode(0), None);
    assert_eq!(Operation::decode(2), None);
}

#[test]
fn buf_carries_bytes() {
    let shared = Buf::Shared(b"abc".to_vec());
    let owned = Buf::Owned(b"abc".to_vec());
    assert_eq!(shared.len(), 3);
    assert!(!shared.is_empty());
    assert!(Buf::Owned(vec![]).is_empty());
    assert_eq!(shared.bytes(), owned.bytes());
    assert_eq!(shared.to_vec(), b"abc".to_vec());
}

#[test]
fn apply_writes_in_place_only_into_a_window_of_the_same_length() {
    let msg = || Message {
        op: Operation::Assign,
        key: b"k".to_vec(),
        data: b"new".to_vec(),
    };
    let mut slot = Buf::Shared(b"old".to_vec());
    msg().apply(&mut slot);
    assert!(matches!(slot, Buf::Shared(_)));
    assert_eq!(slot.bytes(), b"new");
    msg().apply(&mut slot);
    assert!(matches!(slot, Buf::Shared(_)));
    assert_eq!(slot.bytes(), b"new");

    let mut slot = Buf::Shared(b"longer".to_vec());
    msg().apply(&mut slot);
    assert!(matches!(slot, Buf::Owned(_)));
    assert_eq!(slot.bytes(), b"new");
    msg().apply(&mut slot);
    assert!(matches!(slot, Buf::Owned(_)));
    assert_eq!(slot.bytes(), b"new");

    let mut slot = Buf::Owned(b"old".to_vec());
    msg().apply(&mut slot);
    assert!(matches!(slot, Buf::Owned(_)));
    assert_eq!(slot.bytes(), b"new");
}

#[test]
fn every_message_form_applies_alike() {
    let buffered = BufMessage {
        op: Operation::Assign,
        key: Buf::Shared(b"k".to_vec()),
        data: Buf::Shared(b"abc".to_vec()),
    };
    let mut slot = Buf::Shared(b"xyz".to_vec());
    buffered.apply(&mut slot);
    assert!(matches!(slot, Buf::Shared(_)));
    assert_eq!(slot.bytes(), b"abc");

    let view = ViewMessage {
        op: Operation::Assign,
        key: Buf::Owned(b"k".to_vec()),
        data: Buf::Owned(b"de".to_vec()),
    };
    view.apply(&mut slot);
    assert!(matches!(slot, Buf::Owned(_)));
    assert_eq!(slot.bytes(), b"de");

    let owned = OwnedMessage {
        op: Operation::Assign,
        key: b"k".to_vec(),
        data: b"fg".to_vec(),
    };
    let mut window = Buf::Shared(b"..".to_vec());
    owned.apply(&mut window);
    assert!(matches!(window, Buf::Shared(_)));
    assert_eq!(window.bytes(), b"fg");

    let owned = OwnedViewMessage {
        op: Operation::Assign,
        key: b"k".to_vec(),
        data: b"h".to_vec(),
    };
    owned.apply(&mut window);
    assert!(matches!(window, Buf::Owned(_)));
    assert_eq!(window.bytes(), b"h");
}

#[test]
fn messages_convert_without_loss() {
    let msg = Message {
        op: Operation::Assign,
        key: b"key".to_vec(),
        data: b"data".to_vec(),
    };
    let buffered = msg.into_buf_message();
    assert!(matches!(buffered.key, Buf::Owned(_)));
    assert_eq!(buffered.key.bytes(), b"key");
    assert_eq!(buffered.data.bytes(), b"data");
    let back = buffered.into_message();
    assert_eq!(back.key, b"key".to_vec());
    assert_eq!(back.data, b"data".to_vec());
    assert_eq!(back.create(), (b"key".to_vec(), b"data".to_vec()));

    let owned = OwnedMessage {
        op: Operation::Assign,
        key: b"k".to_vec(),
        data: b"d".to_vec(),
    };
    let view = owned.to_message();
    assert_eq!(view.key.bytes(), b"k");
    let owned = view.into_owned();
    assert_eq!(owned.key, b"k".to_vec());
    let view = owned.into_message();
    assert_eq!(view.data.bytes(), b"d");
    let owned = view.into_owned();
    assert_eq!(owned.create(), (b"k".to_vec(), b"d".to_vec()));
    let owned = OwnedMessage {
        op: Operation::Assign,
        key: b"k2".to_vec(),
        data: b"d2".to_vec(),
    };
    assert_eq!(owned.create(), (b"k2".to_vec(), b"d2".to_vec()));
}

#[test]
fn byte_order_is_lexicographic() {
    let samples: Vec<&[u8]> = vec![b"", b"a", b"ab", b"b", b"\xff", b"a\x00", b"abc", b"abd"];
    for a in &samples {
        for b in &samples {
            assert_eq!(lex_less(a, b), a < b);
            assert_eq!(bytes_equal(a, b), a == b);
        }
    }
}
