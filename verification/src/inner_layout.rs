//! The byte layout of an internal node's body: three counts, the table of
//! pivot lengths, the child ids, the operation codes, the tables of message
//! key and data lengths, the pivots, the message keys, the message data.

use crate::codec::{
    chunks_at, concat, cut, enc_lens, enc_u32s, enc_u64s, framable, get_u32s, get_u64, get_u64s,
    lemma_chunks_located, lemma_concat_len, lemma_enc_u32s_len, lemma_enc_u64s_len, lemma_five,
    lemma_inside, lemma_join_assoc, lemma_three, lemma_u32s_located, lemma_u64s_located, lens_of,
    put_chunks, put_lens, put_u32s, put_u64, put_u64s, slices_view, total, u32s_at, u64_at,
    u64s_at,
};
use crate::operation::Operation;
use vstd::bytes::{lemma_auto_spec_u64_to_from_le_bytes, spec_u64_to_le_bytes};
use vstd::prelude::*;

verus! {

/// What an internal node's body holds, as plain values.
pub struct InnerView {
    pub pivots: Seq<Seq<u8>>,
    pub children: Seq<u64>,
    pub codes: Seq<u32>,
    pub msg_keys: Seq<Seq<u8>>,
    pub msg_data: Seq<Seq<u8>>,
}

/// What was cut out of an encoded body: the byte strings are windows of the
/// bytes that were read.
pub struct InnerParts<'a> {
    pub pivots: Vec<&'a [u8]>,
    pub children: Vec<u64>,
    pub codes: Vec<u32>,
    pub msg_keys: Vec<&'a [u8]>,
    pub msg_data: Vec<&'a [u8]>,
}

impl<'a> View for InnerParts<'a> {
    type V = InnerView;

    open spec fn view(&self) -> InnerView {
        InnerView {
            pivots: slices_view(self.pivots@),
            children: self.children@,
            codes: self.codes@,
            msg_keys: slices_view(self.msg_keys@),
            msg_data: slices_view(self.msg_data@),
        }
    }
}

/// Every message has a code, a key and data, every code is that of an
/// operation, and every count and length fits a 64-bit integer.
pub open spec fn inner_framable(v: InnerView) -> bool {
    &&& v.codes.len() == v.msg_keys.len()
    &&& v.codes.len() == v.msg_data.len()
    &&& v.pivots.len() <= u64::MAX
    &&& v.children.len() <= u64::MAX
    &&& v.codes.len() <= u64::MAX
    &&& framable(v.pivots)
    &&& framable(v.msg_keys)
    &&& framable(v.msg_data)
    &&& forall|i: int| 0 <= i < v.codes.len() ==> Operation::known(#[trigger] v.codes[i])
}

/// The three counts.
pub open spec fn inner_head(v: InnerView) -> Seq<u8> {
    spec_u64_to_le_bytes(v.pivots.len() as u64) + spec_u64_to_le_bytes(v.children.len() as u64)
        + spec_u64_to_le_bytes(v.codes.len() as u64)
}

/// The five tables.
pub open spec fn inner_tables(v: InnerView) -> Seq<u8> {
    enc_lens(v.pivots) + enc_u64s(v.children) + enc_u32s(v.codes) + enc_lens(v.msg_keys)
        + enc_lens(v.msg_data)
}

/// The byte strings.
pub open spec fn inner_bytes(v: InnerView) -> Seq<u8> {
    concat(v.pivots) + concat(v.msg_keys) + concat(v.msg_data)
}

/// The encoding of a body.
pub open spec fn inner_encoding(v: InnerView) -> Seq<u8> {
    inner_head(v) + inner_tables(v) + inner_bytes(v)
}

/// The number of pivots of the body encoded from `start` on.
pub open spec fn n_pivots(bytes: Seq<u8>, start: int) -> nat {
    u64_at(bytes, start) as nat
}

/// The number of its children.
pub open spec fn n_children(bytes: Seq<u8>, start: int) -> nat {
    u64_at(bytes, start + 8) as nat
}

/// The number of its messages.
pub open spec fn n_buffered(bytes: Seq<u8>, start: int) -> nat {
    u64_at(bytes, start + 16) as nat
}

/// Where its child ids stand.
pub open spec fn children_pos(bytes: Seq<u8>, start: int) -> int {
    start + 24 + 8 * n_pivots(bytes, start)
}

/// Where its operation codes stand.
pub open spec fn codes_pos(bytes: Seq<u8>, start: int) -> int {
    children_pos(bytes, start) + 8 * n_children(bytes, start)
}

/// Where the table of its message key lengths stands.
pub open spec fn key_lens_pos(bytes: Seq<u8>, start: int) -> int {
    codes_pos(bytes, start) + 4 * n_buffered(bytes, start)
}

/// Where its pivots begin.
pub open spec fn inner_payload(bytes: Seq<u8>, start: int) -> int {
    key_lens_pos(bytes, start) + 16 * n_buffered(bytes, start)
}

/// The lengths of its pivots.
pub open spec fn pivot_lens(bytes: Seq<u8>, start: int) -> Seq<u64> {
    u64s_at(bytes, start + 24, n_pivots(bytes, start))
}

/// The lengths of the keys of its messages.
pub open spec fn msg_key_lens(bytes: Seq<u8>, start: int) -> Seq<u64> {
    u64s_at(bytes, key_lens_pos(bytes, start), n_buffered(bytes, start))
}

/// The lengths of the data of its messages.
pub open spec fn msg_data_lens(bytes: Seq<u8>, start: int) -> Seq<u64> {
    u64s_at(
        bytes,
        key_lens_pos(bytes, start) + 8 * n_buffered(bytes, start),
        n_buffered(bytes, start),
    )
}

/// The body encoded from `start` on, where one is.
pub open spec fn inner_at(bytes: Seq<u8>, start: int) -> InnerView {
    let at = inner_payload(bytes, start);
    let after_pivots = at + total(pivot_lens(bytes, start));
    let after_keys = after_pivots + total(msg_key_lens(bytes, start));
    InnerView {
        pivots: chunks_at(bytes, at, pivot_lens(bytes, start)),
        children: u64s_at(bytes, children_pos(bytes, start), n_children(bytes, start)),
        codes: u32s_at(bytes, codes_pos(bytes, start), n_buffered(bytes, start)),
        msg_keys: chunks_at(bytes, after_pivots, msg_key_lens(bytes, start)),
        msg_data: chunks_at(bytes, after_keys, msg_data_lens(bytes, start)),
    }
}

/// A whole body is encoded from `start` on: the counts, the tables and all
/// the bytes that the tables announce are there, and every operation code
/// is known.
pub open spec fn inner_decodable(bytes: Seq<u8>, start: int) -> bool {
    &&& 0 <= start
    &&& start + 24 <= bytes.len()
    &&& inner_payload(bytes, start) <= bytes.len()
    &&& inner_payload(bytes, start) + total(pivot_lens(bytes, start)) + total(
        msg_key_lens(bytes, start),
    ) + total(msg_data_lens(bytes, start)) <= bytes.len()
    &&& forall|i: int|
        0 <= i < n_buffered(bytes, start) ==> Operation::known(
            #[trigger] inner_at(bytes, start).codes[i],
        )
}

/// The lengths of the three parts of a body's encoding.
pub proof fn lemma_inner_encoding_len(v: InnerView)
    requires
        inner_framable(v),
    ensures
        inner_head(v).len() == 24,
        inner_tables(v).len() == 8 * v.pivots.len() + 8 * v.children.len() + 20 * v.codes.len(),
        inner_bytes(v).len() == total(lens_of(v.pivots)) + total(lens_of(v.msg_keys)) + total(
            lens_of(v.msg_data),
        ),
        inner_encoding(v).len() == inner_head(v).len() + inner_tables(v).len() + inner_bytes(
            v,
        ).len(),
{
    lemma_auto_spec_u64_to_from_le_bytes();
    lemma_enc_u64s_len(lens_of(v.pivots));
    lemma_enc_u64s_len(v.children);
    lemma_enc_u32s_len(v.codes);
    lemma_enc_u64s_len(lens_of(v.msg_keys));
    lemma_enc_u64s_len(lens_of(v.msg_data));
    lemma_concat_len(v.pivots);
    lemma_concat_len(v.msg_keys);
    lemma_concat_len(v.msg_data);
}

/// The counts of an encoded body are read back.
proof fn lemma_counts_roundtrip(b: Seq<u8>, s: int, v: InnerView)
    requires
        inner_framable(v),
        0 <= s,
        s + 24 <= b.len(),
        b.subrange(s, s + 24) == inner_head(v),
    ensures
        n_pivots(b, s) == v.pivots.len(),
        n_children(b, s) == v.children.len(),
        n_buffered(b, s) == v.codes.len(),
{
    lemma_auto_spec_u64_to_from_le_bytes();
    let h1 = spec_u64_to_le_bytes(v.pivots.len() as u64);
    let h2 = spec_u64_to_le_bytes(v.children.len() as u64);
    let h3 = spec_u64_to_le_bytes(v.codes.len() as u64);
    lemma_three(h1, h2, h3);
    lemma_inside(b, s, inner_head(v), 0, 8);
    lemma_inside(b, s, inner_head(v), 8, 16);
    lemma_inside(b, s, inner_head(v), 16, 24);
}

/// The tables of an encoded body are read back.
proof fn lemma_tables_roundtrip(b: Seq<u8>, s: int, v: InnerView)
    requires
        inner_framable(v),
        0 <= s,
        s + inner_tables(v).len() <= b.len(),
        b.subrange(s, s + inner_tables(v).len()) == inner_tables(v),
    ensures
        u64s_at(b, s, v.pivots.len()) == lens_of(v.pivots),
        u64s_at(b, s + 8 * v.pivots.len(), v.children.len()) == v.children,
        u32s_at(b, s + 8 * v.pivots.len() + 8 * v.children.len(), v.codes.len()) == v.codes,
        u64s_at(
            b,
            s + 8 * v.pivots.len() + 8 * v.children.len() + 4 * v.codes.len(),
            v.codes.len(),
        ) == lens_of(v.msg_keys),
        u64s_at(
            b,
            s + 8 * v.pivots.len() + 8 * v.children.len() + 12 * v.codes.len(),
            v.codes.len(),
        ) == lens_of(v.msg_data),
{
    let t1 = enc_lens(v.pivots);
    let t2 = enc_u64s(v.children);
    let t3 = enc_u32s(v.codes);
    let t4 = enc_lens(v.msg_keys);
    let t5 = enc_lens(v.msg_data);
    let np = v.pivots.len() as int;
    let nc = v.children.len() as int;
    let nb = v.codes.len() as int;
    lemma_enc_u64s_len(lens_of(v.pivots));
    lemma_enc_u64s_len(v.children);
    lemma_enc_u32s_len(v.codes);
    lemma_enc_u64s_len(lens_of(v.msg_keys));
    lemma_enc_u64s_len(lens_of(v.msg_data));
    lemma_five(t1, t2, t3, t4, t5);
    let t = inner_tables(v);
    lemma_inside(b, s, t, 0, 8 * np);
    lemma_u64s_located(b, s, lens_of(v.pivots));
    lemma_inside(b, s, t, 8 * np, 8 * np + 8 * nc);
    lemma_u64s_located(b, s + 8 * np, v.children);
    lemma_inside(b, s, t, 8 * np + 8 * nc, 8 * np + 8 * nc + 4 * nb);
    lemma_u32s_located(b, s + 8 * np + 8 * nc, v.codes);
    lemma_inside(b, s, t, 8 * np + 8 * nc + 4 * nb, 8 * np + 8 * nc + 12 * nb);
    lemma_u64s_located(b, s + 8 * np + 8 * nc + 4 * nb, lens_of(v.msg_keys));
    lemma_inside(b, s, t, 8 * np + 8 * nc + 12 * nb, 8 * np + 8 * nc + 20 * nb);
    lemma_u64s_located(b, s + 8 * np + 8 * nc + 12 * nb, lens_of(v.msg_data));
}

/// The byte strings of an encoded body are cut out again.
proof fn lemma_bytes_roundtrip(b: Seq<u8>, s: int, v: InnerView)
    requires
        inner_framable(v),
        0 <= s,
        s + inner_bytes(v).len() <= b.len(),
        b.subrange(s, s + inner_bytes(v).len()) == inner_bytes(v),
    ensures
        chunks_at(b, s, lens_of(v.pivots)) == v.pivots,
        chunks_at(b, s + total(lens_of(v.pivots)), lens_of(v.msg_keys)) == v.msg_keys,
        chunks_at(
            b,
            s + total(lens_of(v.pivots)) + total(lens_of(v.msg_keys)),
            lens_of(v.msg_data),
        ) == v.msg_data,
{
    let part_a = concat(v.pivots);
    let part_b = concat(v.msg_keys);
    let part_c = concat(v.msg_data);
    lemma_concat_len(v.pivots);
    lemma_concat_len(v.msg_keys);
    lemma_concat_len(v.msg_data);
    lemma_three(part_a, part_b, part_c);
    let p = inner_bytes(v);
    lemma_inside(b, s, p, 0, part_a.len() as int);
    lemma_chunks_located(b, s, v.pivots);
    lemma_inside(b, s, p, part_a.len() as int, (part_a.len() + part_b.len()) as int);
    lemma_chunks_located(b, s + part_a.len(), v.msg_keys);
    lemma_inside(b, s, p, (part_a.len() + part_b.len()) as int, p.len() as int);
    lemma_chunks_located(b, s + part_a.len() + part_b.len(), v.msg_data);
}

/// Where the parts of a body's encoding that stands at `s` are read.
proof fn lemma_inner_positions(b: Seq<u8>, s: int, v: InnerView)
    requires
        inner_framable(v),
        0 <= s,
        s + inner_encoding(v).len() <= b.len(),
        b.subrange(s, s + inner_encoding(v).len()) == inner_encoding(v),
    ensures
        n_pivots(b, s) == v.pivots.len(),
        n_children(b, s) == v.children.len(),
        n_buffered(b, s) == v.codes.len(),
        b.subrange(s + 24, s + 24 + inner_tables(v).len()) == inner_tables(v),
        b.subrange(
            s + 24 + inner_tables(v).len(),
            s + 24 + inner_tables(v).len() + inner_bytes(v).len(),
        ) == inner_bytes(v),
        s + 24 + inner_tables(v).len() + inner_bytes(v).len() <= b.len(),
        inner_tables(v).len() == 8 * v.pivots.len() + 8 * v.children.len() + 20 * v.codes.len(),
{
    let e = inner_encoding(v);
    lemma_inner_encoding_len(v);
    lemma_three(inner_head(v), inner_tables(v), inner_bytes(v));
    let tl = inner_tables(v).len() as int;
    lemma_inside(b, s, e, 0, 24);
    lemma_inside(b, s, e, 24, 24 + tl);
    lemma_inside(b, s, e, 24 + tl, e.len() as int);
    lemma_counts_roundtrip(b, s, v);
}

/// A body's encoding that stands at `s` gives back what was encoded.
proof fn lemma_inner_located(b: Seq<u8>, s: int, v: InnerView)
    requires
        inner_framable(v),
        0 <= s,
        s + inner_encoding(v).len() <= b.len(),
        b.subrange(s, s + inner_encoding(v).len()) == inner_encoding(v),
    ensures
        inner_at(b, s) == v,
        n_buffered(b, s) == v.codes.len(),
        inner_payload(b, s) == s + 24 + inner_tables(v).len(),
        pivot_lens(b, s) == lens_of(v.pivots),
        msg_key_lens(b, s) == lens_of(v.msg_keys),
        msg_data_lens(b, s) == lens_of(v.msg_data),
{
    lemma_inner_positions(b, s, v);
    let tl = inner_tables(v).len() as int;
    lemma_tables_roundtrip(b, s + 24, v);
    lemma_bytes_roundtrip(b, s + 24 + tl, v);
    let np = v.pivots.len() as int;
    let nc = v.children.len() as int;
    let nb = v.codes.len() as int;
    assert(children_pos(b, s) == s + 24 + 8 * np);
    assert(codes_pos(b, s) == s + 24 + 8 * np + 8 * nc);
    assert(key_lens_pos(b, s) == s + 24 + 8 * np + 8 * nc + 4 * nb);
    assert(inner_payload(b, s) == s + 24 + tl);
    assert(pivot_lens(b, s) == lens_of(v.pivots));
    assert(msg_key_lens(b, s) == lens_of(v.msg_keys));
    assert(msg_data_lens(b, s) == lens_of(v.msg_data));
    let got = inner_at(b, s);
    assert(got.pivots == v.pivots);
    assert(got.children == v.children);
    assert(got.codes == v.codes);
    assert(got.msg_keys == v.msg_keys);
    assert(got.msg_data == v.msg_data);
}

/// Decoding inverts encoding: a body's encoding, whatever stands before and
/// after it, is decodable and gives back what was encoded.
pub proof fn lemma_inner_roundtrip(pre: Seq<u8>, v: InnerView, post: Seq<u8>)
    requires
        inner_framable(v),
    ensures
        inner_decodable(pre + inner_encoding(v) + post, pre.len() as int),
        inner_at(pre + inner_encoding(v) + post, pre.len() as int) == v,
{
    let b = pre + inner_encoding(v) + post;
    let s = pre.len() as int;
    lemma_three(pre, inner_encoding(v), post);
    lemma_inner_located(b, s, v);
    lemma_inner_encoding_len(v);
    assert forall|i: int| 0 <= i < n_buffered(b, s) implies Operation::known(
        #[trigger] inner_at(b, s).codes[i],
    ) by {
        assert(Operation::known(v.codes[i]));
    }
}

/// Appends the three counts.
fn write_head(out: &mut Vec<u8>, np: usize, nc: usize, nb: usize)
    ensures
        final(out)@ == old(out)@ + (spec_u64_to_le_bytes(np as u64) + spec_u64_to_le_bytes(
            nc as u64,
        ) + spec_u64_to_le_bytes(nb as u64)),
{
    put_u64(out, np as u64);
    put_u64(out, nc as u64);
    put_u64(out, nb as u64);
    assert(out@ =~= old(out)@ + (spec_u64_to_le_bytes(np as u64) + spec_u64_to_le_bytes(
        nc as u64,
    ) + spec_u64_to_le_bytes(nb as u64)));
}

/// Appends the five tables.
fn write_tables(
    out: &mut Vec<u8>,
    pivots: &Vec<&[u8]>,
    children: &Vec<u64>,
    codes: &Vec<u32>,
    msg_keys: &Vec<&[u8]>,
    msg_data: &Vec<&[u8]>,
)
    ensures
        final(out)@ == old(out)@ + (enc_lens(slices_view(pivots@)) + enc_u64s(children@)
            + enc_u32s(codes@) + enc_lens(slices_view(msg_keys@)) + enc_lens(
            slices_view(msg_data@),
        )),
{
    put_lens(out, pivots);
    put_u64s(out, children);
    put_u32s(out, codes);
    put_lens(out, msg_keys);
    put_lens(out, msg_data);
    assert(out@ =~= old(out)@ + (enc_lens(slices_view(pivots@)) + enc_u64s(children@) + enc_u32s(
        codes@,
    ) + enc_lens(slices_view(msg_keys@)) + enc_lens(slices_view(msg_data@))));
}

/// Appends the byte strings.
fn write_bytes(
    out: &mut Vec<u8>,
    pivots: &Vec<&[u8]>,
    msg_keys: &Vec<&[u8]>,
    msg_data: &Vec<&[u8]>,
)
    ensures
        final(out)@ == old(out)@ + (concat(slices_view(pivots@)) + concat(slices_view(msg_keys@))
            + concat(slices_view(msg_data@))),
{
    put_chunks(out, pivots);
    put_chunks(out, msg_keys);
    put_chunks(out, msg_data);
    assert(out@ =~= old(out)@ + (concat(slices_view(pivots@)) + concat(slices_view(msg_keys@))
        + concat(slices_view(msg_data@))));
}

/// Appends the encoding of a body.
pub fn write_inner(
    out: &mut Vec<u8>,
    pivots: &Vec<&[u8]>,
    children: &Vec<u64>,
    codes: &Vec<u32>,
    msg_keys: &Vec<&[u8]>,
    msg_data: &Vec<&[u8]>,
)
    ensures
        final(out)@ == old(out)@ + inner_encoding(
            InnerView {
                pivots: slices_view(pivots@),
                children: children@,
                codes: codes@,
                msg_keys: slices_view(msg_keys@),
                msg_data: slices_view(msg_data@),
            },
        ),
{
    let ghost v = InnerView {
        pivots: slices_view(pivots@),
        children: children@,
        codes: codes@,
        msg_keys: slices_view(msg_keys@),
        msg_data: slices_view(msg_data@),
    };
    write_head(out, pivots.len(), children.len(), codes.len());
    write_tables(out, pivots, children, codes, msg_keys, msg_data);
    write_bytes(out, pivots, msg_keys, msg_data);
    proof {
        let base = old(out)@;
        lemma_join_assoc(base, inner_head(v), inner_tables(v));
        lemma_join_assoc(base, inner_head(v) + inner_tables(v), inner_bytes(v));
    }
}

/// Every code is that of an operation.
fn all_known(codes: &Vec<u32>) -> (r: bool)
    ensures
        r == forall|i: int| 0 <= i < codes@.len() ==> Operation::known(#[trigger] codes@[i]),
{
    let mut i: usize = 0;
    while i < codes.len()
        invariant
            0 <= i <= codes@.len(),
            forall|j: int| 0 <= j < i ==> Operation::known(#[trigger] codes@[j]),
        decreases codes@.len() - i,
    {
        if Operation::decode(codes[i]).is_none() {
            return false;
        }
        i += 1;
    }
    true
}

/// The body encoded from `start` on, its byte strings windows of `bytes`;
/// none where no whole body stands there.
pub fn read_inner<'a>(bytes: &'a [u8], start: usize) -> (r: Option<InnerParts<'a>>)
    ensures
        match r {
            Some(parts) => inner_decodable(bytes@, start as int) && parts@ == inner_at(
                bytes@,
                start as int,
            ),
            None => !inner_decodable(bytes@, start as int),
        },
{
    let size: usize = bytes.len();
    if size < 24 || start > size - 24 {
        return None;
    }
    let np: u64 = get_u64(bytes, start).unwrap();
    let nc: u64 = get_u64(bytes, start + 8).unwrap();
    let nb: u64 = get_u64(bytes, start + 16).unwrap();
    let room: u64 = (size - start - 24) as u64;
    if np > room / 8 {
        return None;
    }
    let room: u64 = room - 8 * np;
    if nc > room / 8 {
        return None;
    }
    let room: u64 = room - 8 * nc;
    if nb > room / 20 {
        return None;
    }
    let np: usize = np as usize;
    let nc: usize = nc as usize;
    let nb: usize = nb as usize;
    let at_children: usize = start + 24 + 8 * np;
    let at_codes: usize = at_children + 8 * nc;
    let at_key_lens: usize = at_codes + 4 * nb;
    let at_data_lens: usize = at_key_lens + 8 * nb;
    let payload: usize = at_data_lens + 8 * nb;
    let pivot_lens = get_u64s(bytes, start + 24, np);
    let children = get_u64s(bytes, at_children, nc);
    let codes = get_u32s(bytes, at_codes, nb);
    let key_lens = get_u64s(bytes, at_key_lens, nb);
    let data_lens = get_u64s(bytes, at_data_lens, nb);
    let (pivots, after_pivots) = match cut(bytes, payload, &pivot_lens) {
        Some(found) => found,
        None => { return None; },
    };
    let (msg_keys, after_keys) = match cut(bytes, after_pivots, &key_lens) {
        Some(found) => found,
        None => { return None; },
    };
    let (msg_data, _) = match cut(bytes, after_keys, &data_lens) {
        Some(found) => found,
        None => { return None; },
    };
    assert(inner_at(bytes@, start as int).codes == codes@);
    if !all_known(&codes) {
        return None;
    }
    Some(
        InnerParts {
            pivots: pivots,
            children: children,
            codes: codes,
            msg_keys: msg_keys,
            msg_data: msg_data,
        },
    )
}

} // verus!
