//! Internal nodes: pivots, children and the buffer of pending messages.

use crate::buf::{all_shared, as_slices, Buf, lemma_views_framable, to_shared, views};
use crate::codec::{get_u32, put_u32, u32_at};
use crate::error::ErrorType;
use crate::index::message::{
    buf_views, BufMessage, codes_of, data_of, data_slices, into_messages, key_slices, keys_of,
    Message, msg_views, MsgView, op_codes, shared_messages,
};
use crate::index::store::{Store, StoreLog};
use crate::intake::{child_step, flushed_down, internal_took, taken_back};
use crate::index::tree::Tree;
use crate::inner_layout::{
    inner_at, inner_decodable, inner_encoding, inner_framable, InnerView, lemma_inner_roundtrip,
    read_inner, write_inner,
};
use crate::leaf::lemma_sorted_subrange;
use crate::node::{Body, NewChild, NewSibling, Node};
use crate::operation::Operation;
use crate::order::{lemma_rank_bound, lex_less, lex_lt, route, strictly_sorted};
use crate::pending::{part_at, side, sort_by_key, stable_sort_of};
use crate::search::upper_bound;
use crate::transaction::Transaction;
use vstd::bytes::{lemma_auto_spec_u32_to_from_le_bytes, spec_u32_to_le_bytes};
use vstd::prelude::*;

verus! {

/// `len` equal values stand from `start` on.
pub open spec fn is_run(values: Seq<usize>, start: int, len: int) -> bool {
    &&& 0 <= start
    &&& 1 <= len
    &&& start + len <= values.len()
    &&& forall|k: int| start <= k < start + len ==> values[k] == values[start]
}

/// The run is a longest one, and of the longest ones the leftmost.
pub open spec fn is_longest_run(values: Seq<usize>, start: int, len: int) -> bool {
    &&& is_run(values, start, len)
    &&& forall|a: int, l: int| #[trigger]
        is_run(values, a, l) ==> l < len || (l == len && a >= start)
}

/// The child that each message goes to.
pub open spec fn routes(pivots: Seq<Seq<u8>>, msgs: Seq<MsgView>) -> Seq<usize> {
    Seq::new(msgs.len(), |i: int| route(pivots, msgs[i].key) as usize)
}

/// What a flush takes out of a buffer that held `before`: the buffer is
/// ordered by key, messages of one key keeping their order; the longest
/// run of messages bound for one child, the leftmost of the longest, is
/// `msgs`, bound for `child`; `after` is what stays, in order.
pub open spec fn flushed(
    before: Seq<MsgView>,
    pivots: Seq<Seq<u8>>,
    child: usize,
    msgs: Seq<MsgView>,
    after: Seq<MsgView>,
) -> bool {
    exists|sorted: Seq<MsgView>, start: int|
        {
            &&& stable_sort_of(sorted, before)
            &&& #[trigger] is_longest_run(routes(pivots, sorted), start, msgs.len() as int)
            &&& child == routes(pivots, sorted)[start]
            &&& msgs == sorted.subrange(start, start + msgs.len())
            &&& after == sorted.take(start) + sorted.skip(start + msgs.len())
        }
}

/// What a flush takes out of a buffer, and what it leaves, is decided by
/// what the buffer holds and by the pivots.
pub proof fn lemma_flush_unique(
    before: Seq<MsgView>,
    pivots: Seq<Seq<u8>>,
    child1: usize,
    msgs1: Seq<MsgView>,
    after1: Seq<MsgView>,
    child2: usize,
    msgs2: Seq<MsgView>,
    after2: Seq<MsgView>,
)
    requires
        flushed(before, pivots, child1, msgs1, after1),
        flushed(before, pivots, child2, msgs2, after2),
    ensures
        child1 == child2,
        msgs1 == msgs2,
        after1 == after2,
{
    let (sorted1, start1) = choose|sorted: Seq<MsgView>, start: int|
        {
            &&& stable_sort_of(sorted, before)
            &&& #[trigger] is_longest_run(routes(pivots, sorted), start, msgs1.len() as int)
            &&& child1 == routes(pivots, sorted)[start]
            &&& msgs1 == sorted.subrange(start, start + msgs1.len())
            &&& after1 == sorted.take(start) + sorted.skip(start + msgs1.len())
        };
    let (sorted2, start2) = choose|sorted: Seq<MsgView>, start: int|
        {
            &&& stable_sort_of(sorted, before)
            &&& #[trigger] is_longest_run(routes(pivots, sorted), start, msgs2.len() as int)
            &&& child2 == routes(pivots, sorted)[start]
            &&& msgs2 == sorted.subrange(start, start + msgs2.len())
            &&& after2 == sorted.take(start) + sorted.skip(start + msgs2.len())
        };
    crate::pending::lemma_stable_sort_unique(sorted1, sorted2, before);
    lemma_longest_run_unique(
        routes(pivots, sorted1),
        start1,
        msgs1.len() as int,
        start2,
        msgs2.len() as int,
    );
}

/// A flush loses no message and makes none: what leaves the buffer and what
/// stays in it together hold each message as often as the buffer did.
pub proof fn lemma_flush_conserves(
    before: Seq<MsgView>,
    pivots: Seq<Seq<u8>>,
    child: usize,
    msgs: Seq<MsgView>,
    after: Seq<MsgView>,
)
    requires
        flushed(before, pivots, child, msgs, after),
        pivots.len() <= usize::MAX,
    ensures
        msgs.to_multiset().add(after.to_multiset()) == before.to_multiset(),
        msgs.len() + after.len() == before.len(),
        forall|i: int| 0 <= i < msgs.len() ==> route(pivots, (#[trigger] msgs[i]).key) == child,
{
    broadcast use vstd::multiset::group_multiset_axioms;

    let (sorted, start) = choose|sorted: Seq<MsgView>, start: int|
        {
            &&& stable_sort_of(sorted, before)
            &&& #[trigger] is_longest_run(routes(pivots, sorted), start, msgs.len() as int)
            &&& child == routes(pivots, sorted)[start]
            &&& msgs == sorted.subrange(start, start + msgs.len())
            &&& after == sorted.take(start) + sorted.skip(start + msgs.len())
        };
    let head = sorted.take(start);
    let tail = sorted.skip(start + msgs.len());
    assert(is_run(routes(pivots, sorted), start, msgs.len() as int));
    assert(sorted =~= head + msgs + tail);
    vstd::seq_lib::lemma_multiset_commutative(head + msgs, tail);
    vstd::seq_lib::lemma_multiset_commutative(head, msgs);
    vstd::seq_lib::lemma_multiset_commutative(head, tail);
    assert(msgs.to_multiset().add(after.to_multiset()) =~= before.to_multiset());
    assert forall|i: int| 0 <= i < msgs.len() implies route(pivots, (#[trigger] msgs[i]).key)
        == child by {
        let all = routes(pivots, sorted);
        lemma_rank_bound(pivots, sorted[start + i].key);
        assert(msgs[i] == sorted[start + i]);
        assert(all[start + i] == all[start]);
        assert(all[start + i] == route(pivots, sorted[start + i].key) as usize);
    }
}

/// The pivot `key` fits between the pivots around the child at `idx`.
pub open spec fn fits(pivots: Seq<Seq<u8>>, idx: int, key: Seq<u8>) -> bool {
    &&& idx == 0 || lex_lt(pivots[idx - 1], key)
    &&& idx == pivots.len() || lex_lt(key, pivots[idx])
}

/// A sequence has one longest leftmost run only.
pub proof fn lemma_longest_run_unique(
    values: Seq<usize>,
    start1: int,
    len1: int,
    start2: int,
    len2: int,
)
    requires
        is_longest_run(values, start1, len1),
        is_longest_run(values, start2, len2),
    ensures
        start1 == start2,
        len1 == len2,
{
    assert(is_run(values, start1, len1));
    assert(is_run(values, start2, len2));
}

/// An internal node.
pub struct Internal {
    /// The height above the leaves: at least 1.
    pub level: u32,
    /// The blob that the node was decoded from or packed into.
    pub data: Vec<u8>,
    /// The pivots: each is the least key of the child to its right.
    pub keys: Vec<Buf>,
    /// The pending messages, unordered.
    pub buffer: Vec<BufMessage>,
    /// The ids of the children, one more than there are pivots.
    pub children: Vec<u64>,
    /// `data` is the encoding of the node as it stands: a split says so of
    /// the node that it packs, and every change takes it back.
    pub serde: bool,
}

impl Internal {
    /// The pivots as byte strings.
    pub open spec fn pivots(&self) -> Seq<Seq<u8>> {
        views(self.keys@)
    }

    /// What the pending messages say, in the order of the buffer.
    pub open spec fn pending(&self) -> Seq<MsgView> {
        buf_views(self.buffer@)
    }

    /// The node is above the leaves, its pivots increase strictly, and it has
    /// one child more than pivots.
    pub open spec fn wf(&self) -> bool {
        &&& self.level >= 1
        &&& strictly_sorted(self.pivots())
        &&& self.children@.len() == self.keys@.len() + 1
    }

    /// What the node holds besides its level, as plain values.
    pub open spec fn body_view(&self) -> InnerView {
        InnerView {
            pivots: self.pivots(),
            children: self.children@,
            codes: codes_of(self.pending()),
            msg_keys: keys_of(self.pending()),
            msg_data: data_of(self.pending()),
        }
    }

    /// The bytes that stand for the node in the store.
    pub open spec fn encoding(&self) -> Seq<u8> {
        spec_u32_to_le_bytes(self.level) + inner_encoding(self.body_view())
    }

    /// Where the node says that its blob is its encoding, it is.
    pub open spec fn packed(&self) -> bool {
        self.serde ==> self.data@ == self.encoding()
    }

    /// `bytes` encode an internal node.
    pub open spec fn decodable(bytes: Seq<u8>) -> bool {
        Internal::decodable_at(bytes, 0)
    }

    /// What a node holds can always be encoded.
    pub proof fn lemma_framable(&self)
        ensures
            inner_framable(self.body_view()),
    {
        let v = self.body_view();
        lemma_views_framable(self.keys@);
        assert(self.keys@.len() == self.keys.len());
        assert(self.children@.len() == self.children.len());
        assert(self.buffer@.len() == self.buffer.len());
        assert forall|i: int| 0 <= i < v.msg_keys.len() implies (#[trigger] v.msg_keys[i]).len()
            <= u64::MAX by {
            lemma_views_framable(seq![self.buffer@[i].key]);
            assert(views(seq![self.buffer@[i].key])[0] == v.msg_keys[i]);
        }
        assert forall|i: int| 0 <= i < v.msg_data.len() implies (#[trigger] v.msg_data[i]).len()
            <= u64::MAX by {
            lemma_views_framable(seq![self.buffer@[i].data]);
            assert(views(seq![self.buffer@[i].data])[0] == v.msg_data[i]);
        }
    }

    /// Decoding inverts encoding: the encoding of a node is decodable and
    /// holds the node's level and what the node holds.
    pub proof fn lemma_roundtrip(&self)
        ensures
            Internal::decodable(self.encoding()),
            u32_at(self.encoding(), 0) == self.level,
            inner_at(self.encoding(), 4) == self.body_view(),
    {
        lemma_auto_spec_u32_to_from_le_bytes();
        self.lemma_framable();
        let head = spec_u32_to_le_bytes(self.level);
        let empty = Seq::<u8>::empty();
        lemma_inner_roundtrip(head, self.body_view(), empty);
        assert(head + inner_encoding(self.body_view()) + empty =~= self.encoding());
        assert(self.encoding().subrange(0, 4) =~= head);
    }

    /// Appends the node's encoding.
    pub fn serialize(&self, wtr: &mut Vec<u8>) -> (r: Result<(), ErrorType>)
        ensures
            r is Ok,
            final(wtr)@ == old(wtr)@ + self.encoding(),
    {
        let pivots = as_slices(&self.keys);
        let codes = op_codes(&self.buffer);
        let msg_keys = key_slices(&self.buffer);
        let msg_data = data_slices(&self.buffer);
        put_u32(wtr, self.level);
        write_inner(wtr, &pivots, &self.children, &codes, &msg_keys, &msg_data);
        proof {
            crate::codec::lemma_join_assoc(
                old(wtr)@,
                spec_u32_to_le_bytes(self.level),
                inner_encoding(self.body_view()),
            );
        }
        Ok(())
    }

    /// The node that `input` encodes, its pivots and messages windows of
    /// `input`.
    pub fn deserialize(input: Vec<u8>) -> (r: Result<Internal, ErrorType>)
        ensures
            match r {
                Ok(node) => {
                    &&& Internal::decodable(input@)
                    &&& node.level == u32_at(input@, 0)
                    &&& node.body_view() == inner_at(input@, 4)
                    &&& node.data == input
                    &&& !node.serde
                    &&& all_shared(node.keys@)
                    &&& forall|i: int|
                        0 <= i < node.buffer@.len() ==> (#[trigger] node.buffer@[i]).key.is_shared()
                            && node.buffer@[i].data.is_shared()
                },
                Err(e) => !Internal::decodable(input@) && e == ErrorType::Serialization,
            },
    {
        Internal::decode_from(input, 0)
    }

    /// `bytes` encode an internal node from `start` on.
    pub open spec fn decodable_at(bytes: Seq<u8>, start: int) -> bool {
        0 <= start && start + 4 <= bytes.len() && inner_decodable(bytes, start + 4)
    }

    /// The node that `input` encodes from `start` on.
    pub fn decode_from(input: Vec<u8>, start: usize) -> (r: Result<Internal, ErrorType>)
        ensures
            match r {
                Ok(node) => {
                    &&& Internal::decodable_at(input@, start as int)
                    &&& node.level == u32_at(input@, start as int)
                    &&& node.body_view() == inner_at(input@, start + 4)
                    &&& node.data == input
                    &&& !node.serde
                    &&& all_shared(node.keys@)
                    &&& forall|i: int|
                        0 <= i < node.buffer@.len() ==> (#[trigger] node.buffer@[i]).key.is_shared()
                            && node.buffer@[i].data.is_shared()
                },
                Err(e) => !Internal::decodable_at(input@, start as int) && e
                    == ErrorType::Serialization,
            },
    {
        let level = match get_u32(input.as_slice(), start) {
            Some(level) => level,
            None => { return Err(ErrorType::Serialization); },
        };
        assert(input@.len() == input.len());
        let (keys, buffer, children) = match read_inner(input.as_slice(), start + 4) {
            Some(parts) => {
                proof {
                    assert(parts@.codes.len() == parts@.msg_keys.len());
                    assert(parts@.codes.len() == parts@.msg_data.len());
                    assert forall|i: int| 0 <= i < parts.codes@.len() implies Operation::known(
                        #[trigger] parts.codes@[i],
                    ) by {
                        assert(Operation::known(inner_at(input@, start + 4).codes[i]));
                    }
                }
                (
                    to_shared(&parts.pivots),
                    shared_messages(&parts.codes, &parts.msg_keys, &parts.msg_data),
                    parts.children,
                )
            },
            None => { return Err(ErrorType::Serialization); },
        };
        Ok(
            Internal {
                level: level,
                data: input,
                keys: keys,
                buffer: buffer,
                children: children,
                serde: false,
            },
        )
    }

    /// The longest run of equal values, the leftmost of the longest: where it
    /// starts, how long it is, and its value.
    pub fn max_run(values: &[usize]) -> (r: (usize, usize, usize))
        requires
            values@.len() > 0,
        ensures
            is_longest_run(values@, r.0 as int, r.1 as int),
            r.2 == values@[r.0 as int],
    {
        let mut best_start: usize = 0;
        let mut best_len: usize = 1;
        let mut cur_start: usize = 0;
        let mut i: usize = 1;
        while i < values.len()
            invariant
                1 <= i <= values@.len(),
                0 <= best_start <= cur_start < i,
                1 <= best_len,
                best_start + best_len <= i,
                is_run(values@, best_start as int, best_len as int),
                is_run(values@, cur_start as int, i - cur_start),
                cur_start == 0 || values@[cur_start - 1] != values@[cur_start as int],
                i - cur_start <= best_len,
                forall|a: int, l: int| #[trigger]
                    is_run(values@, a, l) && a + l <= i ==> l < best_len || (l == best_len && a
                        >= best_start),
            decreases values@.len() - i,
        {
            let ghost old_best_len = best_len as int;
            let ghost old_best_start = best_start as int;
            if values[i] != values[i - 1] {
                cur_start = i;
            }
            let cur_len: usize = i + 1 - cur_start;
            if cur_len > best_len {
                best_start = cur_start;
                best_len = cur_len;
            }
            proof {
                assert forall|a: int, l: int| #[trigger]
                    is_run(values@, a, l) && a + l <= i + 1 implies l < best_len || (l == best_len
                    && a >= best_start) by {
                    if a + l == i + 1 {
                        if a < cur_start {
                            assert(values@[cur_start - 1] == values@[a]);
                            assert(values@[cur_start as int] == values@[a]);
                        }
                    } else {
                        assert(l < old_best_len || (l == old_best_len && a >= old_best_start));
                    }
                }
            }
            i += 1;
        }
        (best_start, best_len, values[best_start])
    }

    /// Puts a message into the buffer.
    pub fn upsert(&mut self, msg: Message)
        ensures
            final(self).pending() == old(self).pending().push(msg@),
            final(self).level == old(self).level,
            final(self).data == old(self).data,
            final(self).keys == old(self).keys,
            final(self).children == old(self).children,
            !final(self).serde,
    {
        let ghost before = self.pending();
        self.buffer.push(msg.into_buf_message());
        self.serde = false;
        assert(self.pending() =~= before.push(msg@));
    }

    /// Parts the node at its median pivot, which leaves the node: the pivots
    /// and children to its right and the messages whose key is at least the
    /// pivot leave for a new node, packed into one blob.
    pub fn split(&mut self) -> (r: NewSibling)
        requires
            old(self).wf(),
            old(self).keys@.len() >= 1,
        ensures
            final(self).wf(),
            final(self).level == old(self).level,
            final(self).data == old(self).data,
            !final(self).serde,
            final(self).keys@ == old(self).keys@.take(old(self).keys@.len() as int / 2),
            final(self).children@ == old(self).children@.take(
                old(self).keys@.len() as int / 2 + 1,
            ),
            final(self).pending() == side(
                old(self).pending(),
                old(self).pivots()[old(self).keys@.len() as int / 2],
                false,
            ),
            r.key@ == old(self).pivots()[old(self).keys@.len() as int / 2],
            r.body is Internal,
            r.body->Internal_0.wf(),
            r.body->Internal_0.level == old(self).level,
            r.body->Internal_0.pivots() == old(self).pivots().skip(
                old(self).keys@.len() as int / 2 + 1,
            ),
            r.body->Internal_0.children@ == old(self).children@.skip(
                old(self).keys@.len() as int / 2 + 1,
            ),
            r.body->Internal_0.pending() == side(
                old(self).pending(),
                old(self).pivots()[old(self).keys@.len() as int / 2],
                true,
            ),
            r.body->Internal_0.serde,
            r.body->Internal_0.packed(),
            all_shared(r.body->Internal_0.keys@),
    {
        let ghost pivots0 = self.pivots();
        let ghost size = self.keys@.len() as int;
        let split: usize = self.keys.len() / 2;
        let sib_children = self.children.split_off(split + 1);
        let right_keys = self.keys.split_off(split + 1);
        let promoted = self.keys.pop().unwrap();
        let mut all: Vec<BufMessage> = Vec::new();
        core::mem::swap(&mut self.buffer, &mut all);
        let (left, right) = part_at(all, promoted.bytes());
        self.buffer = left;
        self.serde = false;

        let pivot_slices = as_slices(&right_keys);
        let codes = op_codes(&right);
        let msg_keys = key_slices(&right);
        let msg_data = data_slices(&right);
        let mut sib_data: Vec<u8> = Vec::new();
        put_u32(&mut sib_data, self.level);
        write_inner(&mut sib_data, &pivot_slices, &sib_children, &codes, &msg_keys, &msg_data);
        let sib_keys = to_shared(&pivot_slices);
        proof {
            assert forall|i: int| 0 <= i < codes@.len() implies Operation::known(
                #[trigger] codes@[i],
            ) by {
                assert(codes@[i] == buf_views(right@)[i].op.code());
            }
            assert(codes@.len() == msg_keys@.len());
            assert(codes@.len() == msg_data@.len());
        }
        let sib_buffer = shared_messages(&codes, &msg_keys, &msg_data);
        let key = promoted.to_vec();
        proof {
            assert(promoted@ == pivots0[split as int]);
            lemma_sorted_subrange(pivots0, 0, split as int);
            lemma_sorted_subrange(pivots0, split + 1, size);
            assert(views(self.keys@) =~= pivots0.subrange(0, split as int));
            assert(self.keys@ =~= old(self).keys@.take(split as int));
            assert(views(sib_keys@) =~= pivots0.subrange(split + 1, size));
            assert(pivots0.skip(split + 1) =~= pivots0.subrange(split + 1, size));
            let sorted = buf_views(sib_buffer@);
            let want = buf_views(right@);
            assert(sorted.len() == want.len()) by {
                assert(keys_of(sorted).len() == sorted.len());
                assert(keys_of(want).len() == want.len());
            }
            assert forall|i: int| 0 <= i < sorted.len() implies sorted[i] == want[i] by {
                assert(codes_of(sorted)[i] == codes_of(want)[i]);
                assert(keys_of(sorted)[i] == keys_of(want)[i]);
                assert(data_of(sorted)[i] == data_of(want)[i]);
                crate::operation::lemma_code_injective(sorted[i].op, want[i].op);
            }
            assert(sorted =~= want);
            crate::codec::lemma_join_assoc(
                Seq::<u8>::empty(),
                spec_u32_to_le_bytes(self.level),
                inner_encoding(
                    InnerView {
                        pivots: views(sib_keys@),
                        children: sib_children@,
                        codes: codes_of(sorted),
                        msg_keys: keys_of(sorted),
                        msg_data: data_of(sorted),
                    },
                ),
            );
            assert(Seq::<u8>::empty() + (spec_u32_to_le_bytes(self.level) + inner_encoding(
                InnerView {
                    pivots: views(sib_keys@),
                    children: sib_children@,
                    codes: codes_of(sorted),
                    msg_keys: keys_of(sorted),
                    msg_data: data_of(sorted),
                },
            )) =~= spec_u32_to_le_bytes(self.level) + inner_encoding(
                InnerView {
                    pivots: views(sib_keys@),
                    children: sib_children@,
                    codes: codes_of(sorted),
                    msg_keys: keys_of(sorted),
                    msg_data: data_of(sorted),
                },
            ));
        }
        let body = Internal {
            level: self.level,
            data: sib_data,
            keys: sib_keys,
            buffer: sib_buffer,
            children: sib_children,
            serde: true,
        };
        NewSibling { key: key, body: Body::Internal(body) }
    }

    /// The child that each pending message goes to.
    fn route_all(&self) -> (r: Vec<usize>)
        requires
            strictly_sorted(self.pivots()),
        ensures
            r@ == routes(self.pivots(), self.pending()),
            forall|i: int| 0 <= i < r@.len() ==> #[trigger] r@[i] <= self.keys@.len(),
    {
        let mut out: Vec<usize> = Vec::new();
        let mut i: usize = 0;
        while i < self.buffer.len()
            invariant
                0 <= i <= self.buffer@.len(),
                strictly_sorted(self.pivots()),
                out@.len() == i,
                forall|j: int|
                    0 <= j < i ==> #[trigger] out@[j] == route(
                        self.pivots(),
                        self.buffer@[j].key@,
                    ),
                forall|j: int| 0 <= j < i ==> #[trigger] out@[j] <= self.keys@.len(),
            decreases self.buffer@.len() - i,
        {
            out.push(upper_bound(&self.keys, self.buffer[i].key.bytes()));
            i += 1;
        }
        assert(out@ =~= routes(self.pivots(), self.pending()));
        out
    }

    /// Takes out of the buffer what is flushed next: the buffer is ordered by
    /// key, and the longest run of messages bound for one child leaves it.
    /// Gives the index of that child and the messages.
    pub fn pick_flush(&mut self) -> (r: (usize, Vec<Message>))
        requires
            old(self).wf(),
            old(self).buffer@.len() > 0,
        ensures
            final(self).wf(),
            final(self).level == old(self).level,
            final(self).data == old(self).data,
            final(self).keys == old(self).keys,
            final(self).children == old(self).children,
            !final(self).serde,
            r.0 < old(self).children@.len(),
            r.1@.len() >= 1,
            flushed(
                old(self).pending(),
                old(self).pivots(),
                r.0,
                msg_views(r.1@),
                final(self).pending(),
            ),
    {
        let mut all: Vec<BufMessage> = Vec::new();
        core::mem::swap(&mut self.buffer, &mut all);
        self.buffer = sort_by_key(all);
        self.serde = false;
        let ghost sorted = self.pending();
        let indices = self.route_all();
        let (start, len, child) = Internal::max_run(indices.as_slice());
        let mut run = self.buffer.split_off(start);
        let mut tail = run.split_off(len);
        self.buffer.append(&mut tail);
        let msgs = into_messages(run);
        proof {
            assert(is_run(indices@, start as int, len as int));
            assert(msg_views(msgs@) =~= sorted.subrange(start as int, start + len));
            assert(self.pending() =~= sorted.take(start as int) + sorted.skip(start + len));
            assert(is_longest_run(
                routes(old(self).pivots(), sorted),
                start as int,
                msg_views(msgs@).len() as int,
            ));
        }
        (child, msgs)
    }

    /// Takes in what a flush into the child at `idx` has left: the child's
    /// id, and the sibling that the child has split off, if it has. The
    /// sibling's key must fit between the pivots around the child.
    pub fn graft(&mut self, idx: usize, child_id: u64, sibling: Option<NewChild>) -> (r: Result<
        (),
        ErrorType,
    >)
        requires
            old(self).wf(),
            idx < old(self).children@.len(),
        ensures
            final(self).wf(),
            final(self).level == old(self).level,
            final(self).data == old(self).data,
            final(self).buffer == old(self).buffer,
            !final(self).serde,
            match sibling {
                None => {
                    &&& r is Ok
                    &&& final(self).keys == old(self).keys
                    &&& final(self).children@ == old(self).children@.update(idx as int, child_id)
                },
                Some(new) => if fits(old(self).pivots(), idx as int, new.key@) {
                    &&& r is Ok
                    &&& final(self).keys@ == old(self).keys@.insert(idx as int, Buf::Owned(new.key))
                    &&& final(self).children@ == old(self).children@.update(
                        idx as int,
                        child_id,
                    ).insert(idx + 1, new.id)
                } else {
                    &&& r == Err::<(), ErrorType>(ErrorType::Serialization)
                    &&& final(self).keys == old(self).keys
                    &&& final(self).children == old(self).children
                },
            },
    {
        self.serde = false;
        match sibling {
            None => {
                self.children[idx] = child_id;
                Ok(())
            },
            Some(new) => {
                let ghost pivots0 = self.pivots();
                let below = idx == 0 || lex_less(self.keys[idx - 1].bytes(), new.key.as_slice());
                let above = idx == self.keys.len() || lex_less(
                    new.key.as_slice(),
                    self.keys[idx].bytes(),
                );
                if !(below && above) {
                    return Err(ErrorType::Serialization);
                }
                self.children[idx] = child_id;
                assert(self.children@.len() == self.children.len());
                self.children.insert(idx + 1, new.id);
                self.keys.insert(idx, Buf::Owned(new.key));
                proof {
                    let next = self.pivots();
                    assert(next =~= pivots0.insert(idx as int, new.key@));
                    assert forall|i: int, j: int| 0 <= i < j < next.len() implies lex_lt(
                        #[trigger] next[i],
                        #[trigger] next[j],
                    ) by {
                        if j < idx {
                            assert(lex_lt(pivots0[i], pivots0[j]));
                        } else if j == idx {
                            if i < idx - 1 {
                                assert(lex_lt(pivots0[i], pivots0[idx - 1]));
                                crate::order::lemma_lex_transitive(
                                    pivots0[i],
                                    pivots0[idx - 1],
                                    new.key@,
                                );
                            }
                        } else if i == idx {
                            if j - 1 > idx {
                                assert(lex_lt(pivots0[idx as int], pivots0[j - 1]));
                                crate::order::lemma_lex_transitive(
                                    new.key@,
                                    pivots0[idx as int],
                                    pivots0[j - 1],
                                );
                            }
                        } else if i < idx {
                            assert(lex_lt(pivots0[i], pivots0[j - 1]));
                        } else {
                            assert(lex_lt(pivots0[i - 1], pivots0[j - 1]));
                        }
                    }
                }
                Ok(())
            },
        }
    }

    /// Whether the node holds what an internal node must hold.
    pub fn check(&self) -> (r: bool)
        ensures
            r == self.wf(),
    {
        assert(self.children@.len() == self.children.len());
        self.level >= 1 && self.keys.len() < usize::MAX && self.children.len() == self.keys.len()
            + 1 && crate::search::sorted_keys(&self.keys)
    }

    /// Flushes the buffer towards one child: the longest run of messages
    /// bound for one child leaves the buffer; the child is read, takes the
    /// messages in, is rebound if it was last written in an earlier epoch,
    /// and is written back; the node takes in the child's id and what the
    /// child has split off, and splits itself if it has reached the limit.
    /// A child that does not stand one level below the node is refused as
    /// corrupt.
    pub fn parent_to_child<S: Store>(
        &mut self,
        tree: &mut Tree,
        store: &mut StoreLog<S>,
        txn: &mut Transaction,
    ) -> (r: Result<Option<NewSibling>, ErrorType>)
        requires
            old(self).wf(),
            old(self).buffer@.len() > 0,
            old(tree).wf(),
        ensures
            final(self).wf(),
            final(self).level == old(self).level,
            final(tree).moved_from(old(tree)),
            final(txn).grown_from(old(txn)),
            final(store).wrote_since(old(store), old(tree).epoch),
            final(store).wrote_up_to(old(store), old(self).level - 1),
            r is Ok ==> {
                &&& final(store).written().len() > old(store).written().len()
                &&& final(store).written().last().level == old(self).level - 1
            },
            r matches Ok(Some(sibling)) ==> {
                &&& sibling.body is Internal
                &&& sibling.body.wf()
                &&& sibling.body.spec_level() == old(self).level
            },
            flushed_down(
                old(self).level,
                old(self).keys@,
                old(self).children@,
                old(self).pending(),
                *final(self),
                r,
                *old(tree),
                *final(tree),
                *old(txn),
                *final(txn),
                *old(store),
                *final(store),
            ),
        decreases old(self).level, 0int,
    {
        let ghost store0 = *store;
        let ghost tree0 = *tree;
        let ghost txn0 = *txn;
        let (child_idx, msgs) = self.pick_flush();
        let ghost rest = self.pending();
        let ghost sent = msg_views(msgs@);
        let child_id = self.children[child_idx];
        let loaded = store.read(child_id);
        let ghost seen = loaded;
        let ghost below = self.level - 1;
        let r = match loaded {
            Err(e) => Err(e),
            Ok(child) => {
                let mut child = child;
                if child.body.level() >= self.level || child.body.level() + 1 != self.level {
                    Err(ErrorType::Serialization)
                } else {
                    let ghost child0 = child;
                    let taken = child.upsert_msgs(tree, store, txn, msgs);
                    let ghost took = taken;
                    let ghost child1 = child;
                    let ghost store1 = *store;
                    let ghost tree1 = *tree;
                    let ghost txn1 = *txn;
                    match taken {
                        Err(e) => {
                            proof {
                                assert(child_step(child1, took, tree1, txn1, store1));
                            }
                            Err(e)
                        },
                        Ok(newchild) => {
                            let r = self.settle_child(tree, store, txn, child_idx, child, newchild);
                            proof {
                                store.lemma_wrote_since_transitive(&store1, &store0, tree0.epoch);
                                store.lemma_wrote_up_to_transitive(
                                    &store1,
                                    &store0,
                                    below,
                                    below,
                                    below,
                                );
                                assert(child_step(child1, took, tree1, txn1, store1));
                            }
                            r
                        },
                    }
                }
            },
        };
        proof {
            assert(views(old(self).keys@) == old(self).pivots());
            assert(flushed(old(self).pending(), views(old(self).keys@), child_idx, sent, rest));
            assert(store0.reads(old(self).children@[child_idx as int], seen));
        }
        r
    }

    /// Takes a child back after it took messages in: the child is rebound if
    /// it was last written in an earlier epoch, and written to the store;
    /// the node takes in the child's id and what the child has split off, and
    /// splits itself if it has reached the limit of pivots.
    pub fn settle_child<S: Store>(
        &mut self,
        tree: &mut Tree,
        store: &mut StoreLog<S>,
        txn: &mut Transaction,
        idx: usize,
        child: Node,
        sibling: Option<NewChild>,
    ) -> (r: Result<Option<NewSibling>, ErrorType>)
        requires
            old(self).wf(),
            old(tree).wf(),
            idx < old(self).children@.len(),
            child.wf(),
        ensures
            final(self).wf(),
            final(self).level == old(self).level,
            final(tree).moved_from(old(tree)),
            final(txn).grown_from(old(txn)),
            final(store).wrote_since(old(store), old(tree).epoch),
            final(store).wrote_up_to(old(store), child.body.spec_level() as int),
            r is Ok ==> {
                &&& final(store).written().len() > old(store).written().len()
                &&& final(store).written().last().level == child.body.spec_level()
            },
            r matches Ok(Some(new)) ==> {
                &&& new.body is Internal
                &&& new.body.wf()
                &&& new.body.spec_level() == old(self).level
            },
            taken_back(
                old(self).level,
                old(self).keys@,
                old(self).children@,
                old(self).pending(),
                idx as int,
                child,
                sibling,
                *final(self),
                r,
                *old(tree),
                *final(tree),
                *old(txn),
                *final(txn),
                *old(store),
                *final(store),
            ),
    {
        let mut child = child;
        match child.rebind(tree, txn) {
            Ok(()) => {},
            Err(e) => { return Err(e); },
        }
        match store.write(&child) {
            Ok(()) => {},
            Err(e) => { return Err(e); },
        }
        match self.graft(idx, child.header.id, sibling) {
            Ok(()) => {},
            Err(e) => { return Err(e); },
        }
        if self.keys.len() < tree.max_pivots {
            Ok(None)
        } else {
            Ok(Some(self.split()))
        }
    }

    /// Buffers one message, and flushes if the node has as many children as
    /// the tree lets it have before it flushes.
    pub fn upsert_msg<S: Store>(
        &mut self,
        tree: &mut Tree,
        store: &mut StoreLog<S>,
        txn: &mut Transaction,
        msg: Message,
    ) -> (r: Result<Option<NewSibling>, ErrorType>)
        requires
            old(self).wf(),
            old(tree).wf(),
        ensures
            final(self).wf(),
            final(self).level == old(self).level,
            final(tree).moved_from(old(tree)),
            final(txn).grown_from(old(txn)),
            final(store).wrote_since(old(store), old(tree).epoch),
            final(store).wrote_up_to(old(store), old(self).level - 1),
            r matches Ok(Some(sibling)) ==> {
                &&& sibling.body is Internal
                &&& sibling.body.wf()
                &&& sibling.body.spec_level() == old(self).level
            },
            internal_took(
                *old(self),
                seq![msg@],
                *final(self),
                r,
                *old(tree),
                *final(tree),
                *old(txn),
                *final(txn),
                *old(store),
                *final(store),
            ),
    {
        self.upsert(msg);
        proof {
            assert(self.pending() =~= old(self).pending() + seq![msg@]);
            assert(self.buffer@.len() == self.pending().len());
        }
        if self.children.len() < tree.max_buffer {
            return Ok(None);
        }
        self.parent_to_child(tree, store, txn)
    }

    /// Buffers the messages, and flushes if the node has as many children as
    /// the tree lets it have before it flushes, and any message is pending.
    pub fn upsert_msgs<S: Store>(
        &mut self,
        tree: &mut Tree,
        store: &mut StoreLog<S>,
        txn: &mut Transaction,
        msgs: Vec<Message>,
    ) -> (r: Result<Option<NewSibling>, ErrorType>)
        requires
            old(self).wf(),
            old(tree).wf(),
        ensures
            final(self).wf(),
            final(self).level == old(self).level,
            final(tree).moved_from(old(tree)),
            final(txn).grown_from(old(txn)),
            final(store).wrote_since(old(store), old(tree).epoch),
            final(store).wrote_up_to(old(store), old(self).level - 1),
            r matches Ok(Some(sibling)) ==> {
                &&& sibling.body is Internal
                &&& sibling.body.wf()
                &&& sibling.body.spec_level() == old(self).level
            },
            internal_took(
                *old(self),
                msg_views(msgs@),
                *final(self),
                r,
                *old(tree),
                *final(tree),
                *old(txn),
                *final(txn),
                *old(store),
                *final(store),
            ),
        decreases old(self).level, 1int,
    {
        let ghost all = msg_views(msgs@);
        let ghost before = self.pending();
        let count: usize = msgs.len();
        let mut rest = crate::util::reversed(msgs);
        let mut done: usize = 0;
        assert(before + all.take(0) =~= before);
        while done < count
            invariant
                0 <= done <= count,
                count == all.len(),
                rest@.len() == count - done,
                forall|j: int|
                    0 <= j < rest@.len() ==> (#[trigger] rest@[j])@ == all[count - 1 - j],
                self.pending() == before + all.take(done as int),
                self.level == old(self).level,
                self.keys == old(self).keys,
                self.children == old(self).children,
                self.wf(),
            decreases count - done,
        {
            let msg = rest.pop().unwrap();
            assert(msg@ == all[done as int]);
            self.upsert(msg);
            assert(before + all.take(done + 1) =~= (before + all.take(done as int)).push(
                all[done as int],
            ));
            done += 1;
        }
        proof {
            assert(all.take(count as int) =~= all);
            assert(self.buffer@.len() == self.pending().len());
        }
        if self.children.len() < tree.max_buffer || self.buffer.len() == 0 {
            return Ok(None);
        }
        self.parent_to_child(tree, store, txn)
    }
}

} // verus!
