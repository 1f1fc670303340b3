//! The byte layout of a leaf: the number of entries, the table of key
//! lengths, the table of value lengths, the keys, the values.

use crate::codec::{
    chunks_at, concat, cut, enc_lens, framable, get_u64, get_u64s, lemma_chunks_located,
    lemma_concat_len, lemma_enc_u64s_len, lemma_u64s_located, lens_of, put_chunks, put_lens,
    put_u64, slices_view, total, u64_at, u64s_at,
};
use vstd::bytes::{lemma_auto_spec_u64_to_from_le_bytes, spec_u64_to_le_bytes};
use vstd::prelude::*;

verus! {

/// The encoding of a leaf that holds `keys` and `vals`.
pub open spec fn leaf_encoding(keys: Seq<Seq<u8>>, vals: Seq<Seq<u8>>) -> Seq<u8> {
    spec_u64_to_le_bytes(keys.len() as u64) + enc_lens(keys) + enc_lens(vals) + concat(keys)
        + concat(vals)
}

/// The number of entries of the leaf encoded from `start` on.
pub open spec fn leaf_count(bytes: Seq<u8>, start: int) -> nat {
    u64_at(bytes, start) as nat
}

/// The lengths of its keys.
pub open spec fn leaf_key_lens(bytes: Seq<u8>, start: int) -> Seq<u64> {
    u64s_at(bytes, start + 8, leaf_count(bytes, start))
}

/// The lengths of its values.
pub open spec fn leaf_val_lens(bytes: Seq<u8>, start: int) -> Seq<u64> {
    u64s_at(bytes, start + 8 + 8 * leaf_count(bytes, start), leaf_count(bytes, start))
}

/// Where its keys begin.
pub open spec fn leaf_payload(bytes: Seq<u8>, start: int) -> int {
    start + 8 + 16 * leaf_count(bytes, start)
}

/// A whole leaf is encoded from `start` on: the count, both tables and all
/// the bytes that the tables announce are there.
pub open spec fn leaf_decodable(bytes: Seq<u8>, start: int) -> bool {
    &&& 0 <= start
    &&& start + 8 <= bytes.len()
    &&& leaf_payload(bytes, start) <= bytes.len()
    &&& leaf_payload(bytes, start) + total(leaf_key_lens(bytes, start)) + total(
        leaf_val_lens(bytes, start),
    ) <= bytes.len()
}

/// The keys of the leaf encoded from `start` on.
pub open spec fn leaf_keys_at(bytes: Seq<u8>, start: int) -> Seq<Seq<u8>> {
    chunks_at(bytes, leaf_payload(bytes, start), leaf_key_lens(bytes, start))
}

/// The values of the leaf encoded from `start` on.
pub open spec fn leaf_vals_at(bytes: Seq<u8>, start: int) -> Seq<Seq<u8>> {
    chunks_at(
        bytes,
        leaf_payload(bytes, start) + total(leaf_key_lens(bytes, start)),
        leaf_val_lens(bytes, start),
    )
}

/// The length of a leaf's encoding.
pub proof fn lemma_leaf_encoding_len(keys: Seq<Seq<u8>>, vals: Seq<Seq<u8>>)
    requires
        framable(keys),
        framable(vals),
    ensures
        leaf_encoding(keys, vals).len() == 8 + 8 * keys.len() + 8 * vals.len() + concat(keys).len()
            + concat(vals).len(),
{
    lemma_auto_spec_u64_to_from_le_bytes();
    lemma_enc_u64s_len(lens_of(keys));
    lemma_enc_u64s_len(lens_of(vals));
}

/// Decoding inverts encoding: a leaf's encoding, whatever stands before and
/// after it, is decodable and gives back the keys and the values.
pub proof fn lemma_leaf_roundtrip(
    pre: Seq<u8>,
    keys: Seq<Seq<u8>>,
    vals: Seq<Seq<u8>>,
    post: Seq<u8>,
)
    requires
        keys.len() == vals.len(),
        keys.len() <= u64::MAX,
        framable(keys),
        framable(vals),
    ensures
        leaf_decodable(pre + leaf_encoding(keys, vals) + post, pre.len() as int),
        leaf_keys_at(pre + leaf_encoding(keys, vals) + post, pre.len() as int) == keys,
        leaf_vals_at(pre + leaf_encoding(keys, vals) + post, pre.len() as int) == vals,
{
    lemma_auto_spec_u64_to_from_le_bytes();
    let n = keys.len();
    let head = spec_u64_to_le_bytes(n as u64);
    let t1 = enc_lens(keys);
    let t2 = enc_lens(vals);
    let part_a = concat(keys);
    let part_b = concat(vals);
    let s = pre.len() as int;
    let b = pre + leaf_encoding(keys, vals) + post;
    lemma_enc_u64s_len(lens_of(keys));
    lemma_enc_u64s_len(lens_of(vals));
    lemma_concat_len(keys);
    lemma_concat_len(vals);
    assert(b.subrange(s, s + 8) =~= head);
    assert(leaf_count(b, s) == n);
    assert(b.subrange(s + 8, s + 8 + 8 * n) =~= t1);
    lemma_u64s_located(b, s + 8, lens_of(keys));
    assert(b.subrange(s + 8 + 8 * n, s + 8 + 8 * n + 8 * n) =~= t2);
    lemma_u64s_located(b, s + 8 + 8 * n, lens_of(vals));
    let at = s + 8 + 16 * n;
    assert(b.subrange(at, at + part_a.len()) =~= part_a);
    lemma_chunks_located(b, at, keys);
    assert(b.subrange(at + part_a.len(), at + part_a.len() + part_b.len()) =~= part_b);
    lemma_chunks_located(b, at + part_a.len(), vals);
}

/// Appends the encoding of a leaf that holds `keys` and `vals`.
pub fn write_leaf(out: &mut Vec<u8>, keys: &Vec<&[u8]>, vals: &Vec<&[u8]>)
    ensures
        final(out)@ == old(out)@ + leaf_encoding(slices_view(keys@), slices_view(vals@)),
{
    put_u64(out, keys.len() as u64);
    put_lens(out, keys);
    put_lens(out, vals);
    put_chunks(out, keys);
    put_chunks(out, vals);
    assert(out@ =~= old(out)@ + leaf_encoding(slices_view(keys@), slices_view(vals@)));
}

/// The keys and the values of the leaf encoded from `start` on, as windows
/// of `bytes`; none where no whole leaf stands there.
pub fn read_leaf<'a>(bytes: &'a [u8], start: usize) -> (r: Option<
    (Vec<&'a [u8]>, Vec<&'a [u8]>),
>)
    ensures
        match r {
            Some((keys, vals)) => {
                &&& leaf_decodable(bytes@, start as int)
                &&& slices_view(keys@) == leaf_keys_at(bytes@, start as int)
                &&& slices_view(vals@) == leaf_vals_at(bytes@, start as int)
            },
            None => !leaf_decodable(bytes@, start as int),
        },
{
    let size: usize = bytes.len();
    let count = match get_u64(bytes, start) {
        Some(count) => count,
        None => { return None; },
    };
    if count > ((size - start - 8) / 16) as u64 {
        return None;
    }
    let n: usize = count as usize;
    let key_lens = get_u64s(bytes, start + 8, n);
    let val_lens = get_u64s(bytes, start + 8 + 8 * n, n);
    let (keys, mid) = match cut(bytes, start + 8 + 16 * n, &key_lens) {
        Some(found) => found,
        None => { return None; },
    };
    let (vals, _) = match cut(bytes, mid, &val_lens) {
        Some(found) => found,
        None => { return None; },
    };
    Some((keys, vals))
}

} // verus!
