//! The buffer of an internal node: ordering it by key and parting it at a
//! pivot, with messages of one key kept in the order in which they came.

use crate::index::message::{buf_views, BufMessage, MsgView};
use crate::order::{lemma_lex_le_transitive, lemma_lex_total, lex_le, lex_less, lex_lt};
use crate::util::reversed;
use vstd::prelude::*;

verus! {

/// The keys never decrease.
pub open spec fn ordered(msgs: Seq<MsgView>) -> bool {
    forall|i: int, j: int|
        0 <= i < j < msgs.len() ==> lex_le((#[trigger] msgs[i]).key, (#[trigger] msgs[j]).key)
}

/// The messages of one key, in order.
pub open spec fn with_key(msgs: Seq<MsgView>, key: Seq<u8>) -> Seq<MsgView>
    decreases msgs.len(),
{
    if msgs.len() == 0 {
        Seq::empty()
    } else if msgs.last().key == key {
        with_key(msgs.drop_last(), key).push(msgs.last())
    } else {
        with_key(msgs.drop_last(), key)
    }
}

/// `out` holds the messages of `msgs`, each as often as `msgs` does, ordered
/// by key, those of one key in the order that they have in `msgs`.
pub open spec fn stable_sort_of(out: Seq<MsgView>, msgs: Seq<MsgView>) -> bool {
    &&& out.len() == msgs.len()
    &&& out.to_multiset() == msgs.to_multiset()
    &&& ordered(out)
    &&& forall|key: Seq<u8>| #[trigger] with_key(out, key) == with_key(msgs, key)
}

/// The messages on one side of `pivot`, in order: those whose key is at
/// least `pivot` where `right`, the others where not.
pub open spec fn side(msgs: Seq<MsgView>, pivot: Seq<u8>, right: bool) -> Seq<MsgView>
    decreases msgs.len(),
{
    if msgs.len() == 0 {
        Seq::empty()
    } else if lex_le(pivot, msgs.last().key) == right {
        side(msgs.drop_last(), pivot, right).push(msgs.last())
    } else {
        side(msgs.drop_last(), pivot, right)
    }
}

/// One more message at the end joins the messages of its key.
pub proof fn lemma_with_key_push(msgs: Seq<MsgView>, m: MsgView, key: Seq<u8>)
    ensures
        with_key(msgs.push(m), key) == if m.key == key {
            with_key(msgs, key).push(m)
        } else {
            with_key(msgs, key)
        },
{
    assert(msgs.push(m).drop_last() =~= msgs);
}

/// One more message at the end joins its side of the pivot.
pub proof fn lemma_side_push(msgs: Seq<MsgView>, m: MsgView, pivot: Seq<u8>, right: bool)
    ensures
        side(msgs.push(m), pivot, right) == if lex_le(pivot, m.key) == right {
            side(msgs, pivot, right).push(m)
        } else {
            side(msgs, pivot, right)
        },
{
    assert(msgs.push(m).drop_last() =~= msgs);
}

/// The messages of one key in two sequences joined.
pub proof fn lemma_with_key_add(a: Seq<MsgView>, b: Seq<MsgView>, key: Seq<u8>)
    ensures
        with_key(a + b, key) == with_key(a, key) + with_key(b, key),
    decreases b.len(),
{
    if b.len() == 0 {
        assert(a + b =~= a);
        assert(with_key(a, key) + with_key(b, key) =~= with_key(a, key));
    } else {
        let front = b.drop_last();
        lemma_with_key_add(a, front, key);
        assert((a + b).drop_last() =~= a + front);
        if b.last().key == key {
            assert((with_key(a, key) + with_key(front, key)).push(b.last()) =~= with_key(a, key)
                + with_key(front, key).push(b.last()));
        }
    }
}

/// Where no message has the key, none is found.
pub proof fn lemma_with_key_none(msgs: Seq<MsgView>, key: Seq<u8>)
    requires
        forall|i: int| 0 <= i < msgs.len() ==> (#[trigger] msgs[i]).key != key,
    ensures
        with_key(msgs, key) == Seq::<MsgView>::empty(),
    decreases msgs.len(),
{
    if msgs.len() > 0 {
        lemma_with_key_none(msgs.drop_last(), key);
    }
}

/// Where some message has the key, one stands at some place.
pub proof fn lemma_with_key_some(msgs: Seq<MsgView>, key: Seq<u8>) -> (at: int)
    requires
        with_key(msgs, key).len() > 0,
    ensures
        0 <= at < msgs.len(),
        msgs[at].key == key,
    decreases msgs.len(),
{
    if msgs.last().key == key {
        msgs.len() - 1
    } else {
        lemma_with_key_some(msgs.drop_last(), key)
    }
}

/// Ordered messages that agree, key by key, on the messages of the key and
/// their order are the same messages in the same order.
pub proof fn lemma_ordered_unique(a: Seq<MsgView>, b: Seq<MsgView>)
    requires
        a.len() == b.len(),
        ordered(a),
        ordered(b),
        forall|key: Seq<u8>| #[trigger] with_key(a, key) == with_key(b, key),
    ensures
        a == b,
    decreases a.len(),
{
    if a.len() == 0 {
        assert(a =~= b);
    } else {
        let ka = a.last().key;
        let kb = b.last().key;
        assert(with_key(a, ka) == with_key(b, ka));
        assert(with_key(a, kb) == with_key(b, kb));
        let ja = lemma_with_key_some(b, ka);
        let jb = lemma_with_key_some(a, kb);
        assert(lex_le(ka, kb)) by {
            if ja < b.len() - 1 {
                assert(lex_le(b[ja].key, b[b.len() - 1].key));
            } else {
                lemma_lex_total(ka, kb);
            }
        }
        assert(lex_le(kb, ka)) by {
            if jb < a.len() - 1 {
                assert(lex_le(a[jb].key, a[a.len() - 1].key));
            } else {
                lemma_lex_total(ka, kb);
            }
        }
        lemma_lex_total(ka, kb);
        assert(ka == kb);
        assert(with_key(a, ka).last() == a.last());
        assert(with_key(b, ka).last() == b.last());
        let a0 = a.drop_last();
        let b0 = b.drop_last();
        assert forall|i: int, j: int| 0 <= i < j < a0.len() implies lex_le(
            (#[trigger] a0[i]).key,
            (#[trigger] a0[j]).key,
        ) by {
            assert(lex_le(a[i].key, a[j].key));
        }
        assert forall|i: int, j: int| 0 <= i < j < b0.len() implies lex_le(
            (#[trigger] b0[i]).key,
            (#[trigger] b0[j]).key,
        ) by {
            assert(lex_le(b[i].key, b[j].key));
        }
        assert forall|key: Seq<u8>| #[trigger] with_key(a0, key) == with_key(b0, key) by {
            assert(with_key(a, key) == with_key(b, key));
            if key == ka {
                assert(with_key(a, key).drop_last() =~= with_key(a0, key));
                assert(with_key(b, key).drop_last() =~= with_key(b0, key));
            }
        }
        lemma_ordered_unique(a0, b0);
        assert(a =~= a0.push(a.last()));
        assert(b =~= b0.push(b.last()));
    }
}

/// There is one way only to order messages by key and keep the messages of
/// one key in their order.
pub proof fn lemma_stable_sort_unique(a: Seq<MsgView>, b: Seq<MsgView>, msgs: Seq<MsgView>)
    requires
        stable_sort_of(a, msgs),
        stable_sort_of(b, msgs),
    ensures
        a == b,
{
    assert forall|key: Seq<u8>| #[trigger] with_key(a, key) == with_key(b, key) by {
        assert(with_key(a, key) == with_key(msgs, key));
        assert(with_key(b, key) == with_key(msgs, key));
    }
    lemma_ordered_unique(a, b);
}

/// Parting loses no message and makes none: the two sides together hold
/// each message as often as the whole does.
pub proof fn lemma_side_conserves(msgs: Seq<MsgView>, pivot: Seq<u8>)
    ensures
        side(msgs, pivot, false).to_multiset().add(side(msgs, pivot, true).to_multiset())
            == msgs.to_multiset(),
    decreases msgs.len(),
{
    broadcast use vstd::seq_lib::group_to_multiset_ensures;
    broadcast use vstd::multiset::group_multiset_axioms;

    if msgs.len() == 0 {
        assert(side(msgs, pivot, false).to_multiset().add(side(msgs, pivot, true).to_multiset())
            =~= msgs.to_multiset());
    } else {
        let front = msgs.drop_last();
        lemma_side_conserves(front, pivot);
        assert(msgs =~= front.push(msgs.last()));
        assert(side(msgs, pivot, false).to_multiset().add(side(msgs, pivot, true).to_multiset())
            =~= front.to_multiset().insert(msgs.last()));
    }
}

/// A message put after all the messages that do not come after it, into
/// ordered messages, leaves them ordered, and is the last of its key.
pub proof fn lemma_insert_sorted(out: Seq<MsgView>, pos: int, m: MsgView)
    requires
        ordered(out),
        0 <= pos <= out.len(),
        forall|j: int| 0 <= j < pos ==> lex_le((#[trigger] out[j]).key, m.key),
        forall|j: int| pos <= j < out.len() ==> lex_lt(m.key, (#[trigger] out[j]).key),
    ensures
        ordered(out.insert(pos, m)),
        forall|key: Seq<u8>| #[trigger]
            with_key(out.insert(pos, m), key) == with_key(out.push(m), key),
{
    let next = out.insert(pos, m);
    assert forall|i: int, j: int| 0 <= i < j < next.len() implies lex_le(
        (#[trigger] next[i]).key,
        (#[trigger] next[j]).key,
    ) by {
        if j < pos {
            assert(lex_le(out[i].key, out[j].key));
        } else if j == pos {
            assert(lex_le(out[i].key, m.key));
        } else if i == pos {
            assert(lex_lt(m.key, out[j - 1].key));
            lemma_lex_total(m.key, out[j - 1].key);
        } else if i < pos {
            assert(lex_le(out[i].key, out[j - 1].key));
        } else {
            assert(lex_le(out[i - 1].key, out[j - 1].key));
        }
    }
    assert forall|key: Seq<u8>| #[trigger]
        with_key(out.insert(pos, m), key) == with_key(out.push(m), key) by {
        let head = out.take(pos);
        let tail = out.skip(pos);
        let one = seq![m];
        assert(next =~= head + one + tail);
        assert(out =~= head + tail);
        assert(out.push(m) =~= head + tail + one);
        lemma_with_key_add(head + one, tail, key);
        lemma_with_key_add(head, one, key);
        lemma_with_key_add(head + tail, one, key);
        lemma_with_key_add(head, tail, key);
        assert(one =~= Seq::<MsgView>::empty().push(m));
        lemma_with_key_push(Seq::<MsgView>::empty(), m, key);
        if m.key == key {
            assert forall|i: int| 0 <= i < tail.len() implies (#[trigger] tail[i]).key != key by {
                assert(lex_lt(m.key, out[pos + i].key));
                lemma_lex_total(m.key, out[pos + i].key);
            }
            lemma_with_key_none(tail, key);
            assert(with_key(head, key) + with_key(one, key) + Seq::<MsgView>::empty() =~= with_key(
                head,
                key,
            ) + Seq::<MsgView>::empty() + with_key(one, key));
        } else {
            assert(with_key(head, key) + with_key(one, key) + with_key(tail, key) =~= with_key(
                head,
                key,
            ) + with_key(tail, key) + with_key(one, key));
        }
    }
}

/// Orders the messages by key; messages of one key keep their order.
pub fn sort_by_key(msgs: Vec<BufMessage>) -> (r: Vec<BufMessage>)
    ensures
        stable_sort_of(buf_views(r@), buf_views(msgs@)),
{
    let ghost all = buf_views(msgs@);
    let count: usize = msgs.len();
    let mut rest = reversed(msgs);
    let mut out: Vec<BufMessage> = Vec::new();
    let mut done: usize = 0;
    assert(all.take(0) =~= Seq::<MsgView>::empty());
    assert(buf_views(out@) =~= Seq::<MsgView>::empty());
    while done < count
        invariant
            0 <= done <= count,
            count == all.len(),
            rest@.len() == count - done,
            forall|j: int| 0 <= j < rest@.len() ==> (#[trigger] rest@[j])@ == all[count - 1 - j],
            stable_sort_of(buf_views(out@), all.take(done as int)),
        decreases count - done,
    {
        let msg = rest.pop().unwrap();
        assert(msg@ == all[done as int]);
        let mut pos: usize = out.len();
        while pos > 0 && lex_less(msg.key.bytes(), out[pos - 1].key.bytes())
            invariant
                0 <= pos <= out@.len(),
                forall|j: int| pos <= j < out@.len() ==> lex_lt(msg.key@, (#[trigger] out@[j]).key@),
            decreases pos,
        {
            pos -= 1;
        }
        let ghost before = buf_views(out@);
        proof {
            assert forall|j: int| 0 <= j < pos implies lex_le(
                (#[trigger] before[j]).key,
                msg@.key,
            ) by {
                assert(lex_le(out@[pos - 1].key@, msg.key@));
                if j < pos - 1 {
                    assert(lex_le(before[j].key, before[pos - 1].key));
                    lemma_lex_le_transitive(before[j].key, before[pos - 1].key, msg@.key);
                }
            }
            assert forall|j: int| pos <= j < before.len() implies lex_lt(
                msg@.key,
                (#[trigger] before[j]).key,
            ) by {
                assert(lex_lt(msg.key@, out@[j].key@));
            }
            lemma_insert_sorted(before, pos as int, msg@);
        }
        out.insert(pos, msg);
        proof {
            let after = buf_views(out@);
            assert(after =~= before.insert(pos as int, all[done as int]));
            assert(all.take(done + 1) =~= all.take(done as int).push(all[done as int]));
            vstd::seq_lib::to_multiset_insert(before, pos as int, all[done as int]);
            vstd::seq_lib::to_multiset_build(all.take(done as int), all[done as int]);
            assert forall|key: Seq<u8>| #[trigger]
                with_key(after, key) == with_key(all.take(done + 1), key) by {
                lemma_with_key_push(before, all[done as int], key);
                lemma_with_key_push(all.take(done as int), all[done as int], key);
                assert(with_key(before, key) == with_key(all.take(done as int), key));
                assert(with_key(before.insert(pos as int, all[done as int]), key) == with_key(
                    before.push(all[done as int]),
                    key,
                ));
            }
        }
        done += 1;
    }
    assert(all.take(count as int) =~= all);
    out
}

/// Parts the messages at `pivot`: first those whose key comes before it,
/// second the others, each in the order in which they stood.
pub fn part_at(msgs: Vec<BufMessage>, pivot: &[u8]) -> (r: (Vec<BufMessage>, Vec<BufMessage>))
    ensures
        buf_views(r.0@) == side(buf_views(msgs@), pivot@, false),
        buf_views(r.1@) == side(buf_views(msgs@), pivot@, true),
{
    let ghost all = buf_views(msgs@);
    let count: usize = msgs.len();
    let mut rest = reversed(msgs);
    let mut left: Vec<BufMessage> = Vec::new();
    let mut right: Vec<BufMessage> = Vec::new();
    let mut done: usize = 0;
    assert(all.take(0) =~= Seq::<MsgView>::empty());
    assert(buf_views(left@) =~= Seq::<MsgView>::empty());
    assert(buf_views(right@) =~= Seq::<MsgView>::empty());
    while done < count
        invariant
            0 <= done <= count,
            count == all.len(),
            rest@.len() == count - done,
            forall|j: int| 0 <= j < rest@.len() ==> (#[trigger] rest@[j])@ == all[count - 1 - j],
            buf_views(left@) == side(all.take(done as int), pivot@, false),
            buf_views(right@) == side(all.take(done as int), pivot@, true),
        decreases count - done,
    {
        let msg = rest.pop().unwrap();
        proof {
            assert(msg@ == all[done as int]);
            assert(all.take(done + 1) =~= all.take(done as int).push(all[done as int]));
            lemma_side_push(all.take(done as int), all[done as int], pivot@, false);
            lemma_side_push(all.take(done as int), all[done as int], pivot@, true);
        }
        let ghost l0 = buf_views(left@);
        let ghost r0 = buf_views(right@);
        if lex_less(msg.key.bytes(), pivot) {
            left.push(msg);
            assert(buf_views(left@) =~= l0.push(all[done as int]));
        } else {
            right.push(msg);
            assert(buf_views(right@) =~= r0.push(all[done as int]));
        }
        done += 1;
    }
    assert(all.take(count as int) =~= all);
    (left, right)
}

} // verus!
