//! Little-endian framing: fixed-width integers, tables of lengths, and the
//! byte strings that such a table delimits.

use byteorder::{ByteOrder, LittleEndian};
use vstd::array::array_as_slice;
use vstd::bytes::{
    lemma_auto_spec_u32_to_from_le_bytes, lemma_auto_spec_u64_to_from_le_bytes,
    spec_u32_from_le_bytes, spec_u32_to_le_bytes, spec_u64_from_le_bytes, spec_u64_to_le_bytes,
};
use vstd::prelude::*;
use vstd::slice::slice_subrange;

verus! {

/// `byteorder`'s `LittleEndian::read_u64`: the first eight bytes of `buf`,
/// read as a little-endian integer. It panics on a shorter slice.
#[verifier::external_body]
fn le_read_u64(buf: &[u8]) -> (r: u64)
    requires
        buf@.len() >= 8,
    ensures
        r == spec_u64_from_le_bytes(buf@.subrange(0, 8)),
{
    LittleEndian::read_u64(buf)
}

/// `byteorder`'s `LittleEndian::read_u32`: the first four bytes of `buf`,
/// read as a little-endian integer. It panics on a shorter slice.
#[verifier::external_body]
fn le_read_u32(buf: &[u8]) -> (r: u32)
    requires
        buf@.len() >= 4,
    ensures
        r == spec_u32_from_le_bytes(buf@.subrange(0, 4)),
{
    LittleEndian::read_u32(buf)
}

/// `byteorder`'s `LittleEndian::write_u64` on an eight-byte array: the
/// array then holds the little-endian bytes of `n`.
#[verifier::external_body]
fn le_write_u64(n: u64) -> (r: [u8; 8])
    ensures
        r@ == spec_u64_to_le_bytes(n),
{
    let mut out: [u8; 8] = [0u8; 8];
    LittleEndian::write_u64(&mut out, n);
    out
}

/// `byteorder`'s `LittleEndian::write_u32` on a four-byte array: the array
/// then holds the little-endian bytes of `n`.
#[verifier::external_body]
fn le_write_u32(n: u32) -> (r: [u8; 4])
    ensures
        r@ == spec_u32_to_le_bytes(n),
{
    let mut out: [u8; 4] = [0u8; 4];
    LittleEndian::write_u32(&mut out, n);
    out
}

/// The 64-bit integer that stands at `pos`.
pub open spec fn u64_at(bytes: Seq<u8>, pos: int) -> u64 {
    spec_u64_from_le_bytes(bytes.subrange(pos, pos + 8))
}

/// The 32-bit integer that stands at `pos`.
pub open spec fn u32_at(bytes: Seq<u8>, pos: int) -> u32 {
    spec_u32_from_le_bytes(bytes.subrange(pos, pos + 4))
}

/// The encodings of `vals`, one after the other.
pub open spec fn enc_u64s(vals: Seq<u64>) -> Seq<u8>
    decreases vals.len(),
{
    if vals.len() == 0 {
        Seq::empty()
    } else {
        enc_u64s(vals.drop_last()) + spec_u64_to_le_bytes(vals.last())
    }
}

/// The encodings of `vals`, one after the other.
pub open spec fn enc_u32s(vals: Seq<u32>) -> Seq<u8>
    decreases vals.len(),
{
    if vals.len() == 0 {
        Seq::empty()
    } else {
        enc_u32s(vals.drop_last()) + spec_u32_to_le_bytes(vals.last())
    }
}

/// The byte strings one after the other.
pub open spec fn concat(chunks: Seq<Seq<u8>>) -> Seq<u8>
    decreases chunks.len(),
{
    if chunks.len() == 0 {
        Seq::empty()
    } else {
        concat(chunks.drop_last()) + chunks.last()
    }
}

/// The lengths of the byte strings.
pub open spec fn lens_of(chunks: Seq<Seq<u8>>) -> Seq<u64> {
    Seq::new(chunks.len(), |i: int| chunks[i].len() as u64)
}

/// Every byte string has a length that a 64-bit integer holds.
pub open spec fn framable(chunks: Seq<Seq<u8>>) -> bool {
    forall|i: int| 0 <= i < chunks.len() ==> (#[trigger] chunks[i]).len() <= u64::MAX
}

/// The table of the lengths of `chunks`.
pub open spec fn enc_lens(chunks: Seq<Seq<u8>>) -> Seq<u8> {
    enc_u64s(lens_of(chunks))
}

/// The sum of the lengths.
pub open spec fn total(lens: Seq<u64>) -> nat
    decreases lens.len(),
{
    if lens.len() == 0 {
        0
    } else {
        total(lens.drop_last()) + lens.last() as nat
    }
}

/// The `n` 64-bit integers that stand from `pos` on.
pub open spec fn u64s_at(bytes: Seq<u8>, pos: int, n: nat) -> Seq<u64> {
    Seq::new(n, |i: int| u64_at(bytes, pos + 8 * i))
}

/// The `n` 32-bit integers that stand from `pos` on.
pub open spec fn u32s_at(bytes: Seq<u8>, pos: int, n: nat) -> Seq<u32> {
    Seq::new(n, |i: int| u32_at(bytes, pos + 4 * i))
}

/// The byte strings of the given lengths that follow one another from `pos`.
pub open spec fn chunks_at(bytes: Seq<u8>, pos: int, lens: Seq<u64>) -> Seq<Seq<u8>> {
    Seq::new(
        lens.len(),
        |i: int| bytes.subrange(pos + total(lens.take(i)), pos + total(lens.take(i + 1))),
    )
}

/// A table of 64-bit integers takes eight bytes for each.
pub proof fn lemma_enc_u64s_len(vals: Seq<u64>)
    ensures
        enc_u64s(vals).len() == 8 * vals.len(),
    decreases vals.len(),
{
    lemma_auto_spec_u64_to_from_le_bytes();
    if vals.len() > 0 {
        lemma_enc_u64s_len(vals.drop_last());
    }
}

/// A table of 32-bit integers takes four bytes for each.
pub proof fn lemma_enc_u32s_len(vals: Seq<u32>)
    ensures
        enc_u32s(vals).len() == 4 * vals.len(),
    decreases vals.len(),
{
    lemma_auto_spec_u32_to_from_le_bytes();
    if vals.len() > 0 {
        lemma_enc_u32s_len(vals.drop_last());
    }
}

/// One more integer at the end of a table.
pub proof fn lemma_enc_u64s_push(vals: Seq<u64>, x: u64)
    ensures
        enc_u64s(vals.push(x)) == enc_u64s(vals) + spec_u64_to_le_bytes(x),
{
    assert(vals.push(x).drop_last() =~= vals);
}

/// One more integer at the end of a table.
pub proof fn lemma_enc_u32s_push(vals: Seq<u32>, x: u32)
    ensures
        enc_u32s(vals.push(x)) == enc_u32s(vals) + spec_u32_to_le_bytes(x),
{
    assert(vals.push(x).drop_last() =~= vals);
}

/// One more byte string at the end.
pub proof fn lemma_concat_push(chunks: Seq<Seq<u8>>, c: Seq<u8>)
    ensures
        concat(chunks.push(c)) == concat(chunks) + c,
{
    assert(chunks.push(c).drop_last() =~= chunks);
}

/// The sum over a prefix grows with the prefix.
pub proof fn lemma_total_take(lens: Seq<u64>, i: int)
    requires
        0 <= i < lens.len(),
    ensures
        total(lens.take(i + 1)) == total(lens.take(i)) + lens[i],
        total(lens.take(0)) == 0,
        total(lens.take(lens.len() as int)) == total(lens),
{
    assert(lens.take(i + 1).drop_last() =~= lens.take(i));
    assert(lens.take(lens.len() as int) =~= lens);
}

/// A prefix sums to no more than the whole.
pub proof fn lemma_total_monotone(lens: Seq<u64>, i: int)
    requires
        0 <= i <= lens.len(),
    ensures
        total(lens.take(i)) <= total(lens),
    decreases lens.len() - i,
{
    if i < lens.len() {
        lemma_total_take(lens, i);
        lemma_total_monotone(lens, i + 1);
    } else {
        assert(lens.take(i) =~= lens);
    }
}

/// The byte strings one after the other are as long as their lengths sum to.
pub proof fn lemma_concat_len(chunks: Seq<Seq<u8>>)
    requires
        framable(chunks),
    ensures
        concat(chunks).len() == total(lens_of(chunks)),
    decreases chunks.len(),
{
    if chunks.len() > 0 {
        let front = chunks.drop_last();
        lemma_concat_len(front);
        assert(lens_of(chunks).drop_last() =~= lens_of(front));
    }
}

/// A table that stands at `pos` is read back as the integers it was made of.
pub proof fn lemma_u64s_located(bytes: Seq<u8>, pos: int, vals: Seq<u64>)
    requires
        0 <= pos,
        pos + 8 * vals.len() <= bytes.len(),
        bytes.subrange(pos, pos + 8 * vals.len()) == enc_u64s(vals),
    ensures
        u64s_at(bytes, pos, vals.len()) == vals,
    decreases vals.len(),
{
    lemma_auto_spec_u64_to_from_le_bytes();
    if vals.len() > 0 {
        let front = vals.drop_last();
        let n = front.len() as int;
        let table = bytes.subrange(pos, pos + 8 * vals.len());
        lemma_enc_u64s_len(front);
        assert(bytes.subrange(pos, pos + 8 * n) =~= table.subrange(0, 8 * n));
        assert(table.subrange(0, 8 * n) =~= enc_u64s(front));
        lemma_u64s_located(bytes, pos, front);
        assert(bytes.subrange(pos + 8 * n, pos + 8 * n + 8) =~= table.subrange(8 * n, 8 * n + 8));
        assert(table.subrange(8 * n, 8 * n + 8) =~= spec_u64_to_le_bytes(vals.last()));
        assert forall|i: int| 0 <= i < vals.len() implies u64s_at(bytes, pos, vals.len())[i]
            == vals[i] by {
            if i < n {
                assert(u64s_at(bytes, pos, front.len())[i] == front[i]);
            }
        }
        assert(u64s_at(bytes, pos, vals.len()) =~= vals);
    } else {
        assert(u64s_at(bytes, pos, vals.len()) =~= vals);
    }
}

/// A table that stands at `pos` is read back as the integers it was made of.
pub proof fn lemma_u32s_located(bytes: Seq<u8>, pos: int, vals: Seq<u32>)
    requires
        0 <= pos,
        pos + 4 * vals.len() <= bytes.len(),
        bytes.subrange(pos, pos + 4 * vals.len()) == enc_u32s(vals),
    ensures
        u32s_at(bytes, pos, vals.len()) == vals,
    decreases vals.len(),
{
    lemma_auto_spec_u32_to_from_le_bytes();
    if vals.len() > 0 {
        let front = vals.drop_last();
        let n = front.len() as int;
        let table = bytes.subrange(pos, pos + 4 * vals.len());
        lemma_enc_u32s_len(front);
        assert(bytes.subrange(pos, pos + 4 * n) =~= table.subrange(0, 4 * n));
        assert(table.subrange(0, 4 * n) =~= enc_u32s(front));
        lemma_u32s_located(bytes, pos, front);
        assert(bytes.subrange(pos + 4 * n, pos + 4 * n + 4) =~= table.subrange(4 * n, 4 * n + 4));
        assert(table.subrange(4 * n, 4 * n + 4) =~= spec_u32_to_le_bytes(vals.last()));
        assert forall|i: int| 0 <= i < vals.len() implies u32s_at(bytes, pos, vals.len())[i]
            == vals[i] by {
            if i < n {
                assert(u32s_at(bytes, pos, front.len())[i] == front[i]);
            }
        }
        assert(u32s_at(bytes, pos, vals.len()) =~= vals);
    } else {
        assert(u32s_at(bytes, pos, vals.len()) =~= vals);
    }
}

/// Byte strings that stand one after the other from `pos` are cut out again
/// by their lengths.
pub proof fn lemma_chunks_located(bytes: Seq<u8>, pos: int, chunks: Seq<Seq<u8>>)
    requires
        0 <= pos,
        framable(chunks),
        pos + concat(chunks).len() <= bytes.len(),
        bytes.subrange(pos, pos + concat(chunks).len()) == concat(chunks),
    ensures
        chunks_at(bytes, pos, lens_of(chunks)) == chunks,
    decreases chunks.len(),
{
    let lens = lens_of(chunks);
    if chunks.len() > 0 {
        let front = chunks.drop_last();
        let n = front.len() as int;
        let all = bytes.subrange(pos, pos + concat(chunks).len());
        let flen = concat(front).len() as int;
        lemma_concat_len(front);
        lemma_concat_len(chunks);
        assert(lens.drop_last() =~= lens_of(front));
        assert(bytes.subrange(pos, pos + flen) =~= all.subrange(0, flen));
        assert(all.subrange(0, flen) =~= concat(front));
        lemma_chunks_located(bytes, pos, front);
        assert forall|i: int| 0 <= i < chunks.len() implies chunks_at(bytes, pos, lens)[i]
            == chunks[i] by {
            if i < n {
                assert(lens.take(i) =~= lens_of(front).take(i));
                assert(lens.take(i + 1) =~= lens_of(front).take(i + 1));
                assert(chunks_at(bytes, pos, lens_of(front))[i] == front[i]);
            } else {
                assert(lens.take(i) =~= lens_of(front));
                assert(lens.take(i + 1) =~= lens);
                assert(bytes.subrange(pos + flen, pos + concat(chunks).len()) =~= all.subrange(
                    flen,
                    concat(chunks).len() as int,
                ));
                assert(all.subrange(flen, concat(chunks).len() as int) =~= chunks.last());
            }
        }
        assert(chunks_at(bytes, pos, lens) =~= chunks);
    } else {
        assert(chunks_at(bytes, pos, lens) =~= chunks);
    }
}

/// Joining byte strings is associative.
pub proof fn lemma_join_assoc(a: Seq<u8>, b: Seq<u8>, c: Seq<u8>)
    ensures
        (a + b) + c == a + (b + c),
{
    assert((a + b) + c =~= a + (b + c));
}

/// What stands inside a part that stands at `at` stands there in the whole.
pub proof fn lemma_inside(bytes: Seq<u8>, at: int, part: Seq<u8>, from: int, to: int)
    requires
        0 <= at,
        at + part.len() <= bytes.len(),
        bytes.subrange(at, at + part.len()) == part,
        0 <= from <= to <= part.len(),
    ensures
        bytes.subrange(at + from, at + to) == part.subrange(from, to),
{
    let whole = bytes.subrange(at, at + part.len());
    assert(bytes.subrange(at + from, at + to) =~= whole.subrange(from, to));
}

/// Where each of three parts stands in the three joined.
pub proof fn lemma_three(a: Seq<u8>, b: Seq<u8>, c: Seq<u8>)
    ensures
        (a + b + c).len() == a.len() + b.len() + c.len(),
        (a + b + c).subrange(0, a.len() as int) == a,
        (a + b + c).subrange(a.len() as int, (a.len() + b.len()) as int) == b,
        (a + b + c).subrange((a.len() + b.len()) as int, (a.len() + b.len() + c.len()) as int)
            == c,
{
    let all = a + b + c;
    assert(all.subrange(0, a.len() as int) =~= a);
    assert(all.subrange(a.len() as int, (a.len() + b.len()) as int) =~= b);
    assert(all.subrange((a.len() + b.len()) as int, (a.len() + b.len() + c.len()) as int) =~= c);
}

/// Where each of five parts stands in the five joined.
pub proof fn lemma_five(a: Seq<u8>, b: Seq<u8>, c: Seq<u8>, d: Seq<u8>, e: Seq<u8>)
    ensures
        (a + b + c + d + e).len() == a.len() + b.len() + c.len() + d.len() + e.len(),
        (a + b + c + d + e).subrange(0, a.len() as int) == a,
        (a + b + c + d + e).subrange(a.len() as int, (a.len() + b.len()) as int) == b,
        (a + b + c + d + e).subrange(
            (a.len() + b.len()) as int,
            (a.len() + b.len() + c.len()) as int,
        ) == c,
        (a + b + c + d + e).subrange(
            (a.len() + b.len() + c.len()) as int,
            (a.len() + b.len() + c.len() + d.len()) as int,
        ) == d,
        (a + b + c + d + e).subrange(
            (a.len() + b.len() + c.len() + d.len()) as int,
            (a.len() + b.len() + c.len() + d.len() + e.len()) as int,
        ) == e,
{
    let abc = a + b + c;
    lemma_three(a, b, c);
    lemma_three(abc, d, e);
    let all = abc + d + e;
    lemma_inside(all, 0, abc, 0, a.len() as int);
    lemma_inside(all, 0, abc, a.len() as int, (a.len() + b.len()) as int);
    lemma_inside(all, 0, abc, (a.len() + b.len()) as int, abc.len() as int);
}

/// Appends the little-endian bytes of `n`.
pub fn put_u64(out: &mut Vec<u8>, n: u64)
    ensures
        final(out)@ == old(out)@ + spec_u64_to_le_bytes(n),
{
    let raw = le_write_u64(n);
    out.extend_from_slice(array_as_slice(&raw));
}

/// Appends the little-endian bytes of `n`.
pub fn put_u32(out: &mut Vec<u8>, n: u32)
    ensures
        final(out)@ == old(out)@ + spec_u32_to_le_bytes(n),
{
    let raw = le_write_u32(n);
    out.extend_from_slice(array_as_slice(&raw));
}

/// The 64-bit integer at `pos`, if eight bytes stand there.
pub fn get_u64(bytes: &[u8], pos: usize) -> (r: Option<u64>)
    ensures
        r == if pos + 8 <= bytes@.len() {
            Some(u64_at(bytes@, pos as int))
        } else {
            None
        },
{
    if bytes.len() < 8 || pos > bytes.len() - 8 {
        return None;
    }
    let part = slice_subrange(bytes, pos, pos + 8);
    let r = le_read_u64(part);
    assert(part@.subrange(0, 8) =~= bytes@.subrange(pos as int, pos + 8));
    Some(r)
}

/// The 32-bit integer at `pos`, if four bytes stand there.
pub fn get_u32(bytes: &[u8], pos: usize) -> (r: Option<u32>)
    ensures
        r == if pos + 4 <= bytes@.len() {
            Some(u32_at(bytes@, pos as int))
        } else {
            None
        },
{
    if bytes.len() < 4 || pos > bytes.len() - 4 {
        return None;
    }
    let part = slice_subrange(bytes, pos, pos + 4);
    let r = le_read_u32(part);
    assert(part@.subrange(0, 4) =~= bytes@.subrange(pos as int, pos + 4));
    Some(r)
}

/// The `n` 64-bit integers from `pos` on.
pub fn get_u64s(bytes: &[u8], pos: usize, n: usize) -> (r: Vec<u64>)
    requires
        pos + 8 * n <= bytes@.len(),
    ensures
        r@ == u64s_at(bytes@, pos as int, n as nat),
{
    let mut out: Vec<u64> = Vec::new();
    let size: usize = bytes.len();
    let mut i: usize = 0;
    while i < n
        invariant
            0 <= i <= n,
            size == bytes@.len(),
            pos + 8 * n <= bytes@.len(),
            out@ == u64s_at(bytes@, pos as int, i as nat),
        decreases n - i,
    {
        let v = get_u64(bytes, pos + 8 * i);
        out.push(v.unwrap());
        i += 1;
        assert(out@ =~= u64s_at(bytes@, pos as int, i as nat));
    }
    out
}

/// The `n` 32-bit integers from `pos` on.
pub fn get_u32s(bytes: &[u8], pos: usize, n: usize) -> (r: Vec<u32>)
    requires
        pos + 4 * n <= bytes@.len(),
    ensures
        r@ == u32s_at(bytes@, pos as int, n as nat),
{
    let mut out: Vec<u32> = Vec::new();
    let size: usize = bytes.len();
    let mut i: usize = 0;
    while i < n
        invariant
            0 <= i <= n,
            size == bytes@.len(),
            pos + 4 * n <= bytes@.len(),
            out@ == u32s_at(bytes@, pos as int, i as nat),
        decreases n - i,
    {
        let v = get_u32(bytes, pos + 4 * i);
        out.push(v.unwrap());
        i += 1;
        assert(out@ =~= u32s_at(bytes@, pos as int, i as nat));
    }
    out
}

/// Appends the 32-bit integers.
pub fn put_u32s(out: &mut Vec<u8>, vals: &Vec<u32>)
    ensures
        final(out)@ == old(out)@ + enc_u32s(vals@),
{
    let mut i: usize = 0;
    assert(vals@.take(0) =~= Seq::<u32>::empty());
    assert(old(out)@ + enc_u32s(Seq::<u32>::empty()) =~= old(out)@);
    while i < vals.len()
        invariant
            0 <= i <= vals@.len(),
            out@ == old(out)@ + enc_u32s(vals@.take(i as int)),
        decreases vals@.len() - i,
    {
        put_u32(out, vals[i]);
        proof {
            let done = vals@.take(i as int);
            lemma_enc_u32s_push(done, vals@[i as int]);
            assert(vals@.take(i + 1) =~= done.push(vals@[i as int]));
            assert(out@ =~= old(out)@ + enc_u32s(vals@.take(i + 1)));
        }
        i += 1;
    }
    assert(vals@.take(vals@.len() as int) =~= vals@);
}

/// The byte strings of the given lengths from `pos` on, as windows of
/// `bytes`, and the position after the last; none where they do not all fit.
pub fn cut<'a>(bytes: &'a [u8], pos: usize, lens: &Vec<u64>) -> (r: Option<
    (Vec<&'a [u8]>, usize),
>)
    requires
        pos <= bytes@.len(),
    ensures
        match r {
            Some((parts, end)) => {
                &&& pos + total(lens@) <= bytes@.len()
                &&& slices_view(parts@) == chunks_at(bytes@, pos as int, lens@)
                &&& end == pos + total(lens@)
            },
            None => pos + total(lens@) > bytes@.len(),
        },
{
    let mut out: Vec<&'a [u8]> = Vec::new();
    let mut off: usize = pos;
    let mut i: usize = 0;
    while i < lens.len()
        invariant
            0 <= i <= lens@.len(),
            pos <= off <= bytes@.len(),
            off == pos + total(lens@.take(i as int)),
            out@.len() == i,
            forall|j: int|
                0 <= j < i ==> (#[trigger] out@[j])@ == chunks_at(bytes@, pos as int, lens@)[j],
        decreases lens@.len() - i,
    {
        let len = lens[i];
        proof {
            lemma_total_take(lens@, i as int);
            lemma_total_monotone(lens@, i + 1);
        }
        if len > (bytes.len() - off) as u64 {
            return None;
        }
        let end: usize = off + len as usize;
        out.push(slice_subrange(bytes, off, end));
        off = end;
        i += 1;
    }
    proof {
        assert(lens@.take(lens@.len() as int) =~= lens@);
        assert(slices_view(out@) =~= chunks_at(bytes@, pos as int, lens@));
    }
    Some((out, off))
}

/// Appends the table of the lengths of `chunks`.
pub fn put_lens(out: &mut Vec<u8>, chunks: &Vec<&[u8]>)
    ensures
        final(out)@ == old(out)@ + enc_lens(slices_view(chunks@)),
{
    let ghost all = slices_view(chunks@);
    let mut i: usize = 0;
    assert(lens_of(all).take(0) =~= Seq::<u64>::empty());
    assert(old(out)@ + enc_u64s(Seq::<u64>::empty()) =~= old(out)@);
    while i < chunks.len()
        invariant
            0 <= i <= chunks@.len(),
            all == slices_view(chunks@),
            out@ == old(out)@ + enc_u64s(lens_of(all).take(i as int)),
        decreases chunks@.len() - i,
    {
        let len: u64 = chunks[i].len() as u64;
        put_u64(out, len);
        proof {
            let done = lens_of(all).take(i as int);
            lemma_enc_u64s_push(done, len);
            assert(lens_of(all).take(i + 1) =~= done.push(len));
            assert(out@ =~= old(out)@ + enc_u64s(lens_of(all).take(i + 1)));
        }
        i += 1;
    }
    assert(lens_of(all).take(chunks@.len() as int) =~= lens_of(all));
}

/// Appends the 64-bit integers.
pub fn put_u64s(out: &mut Vec<u8>, vals: &Vec<u64>)
    ensures
        final(out)@ == old(out)@ + enc_u64s(vals@),
{
    let mut i: usize = 0;
    assert(vals@.take(0) =~= Seq::<u64>::empty());
    assert(old(out)@ + enc_u64s(Seq::<u64>::empty()) =~= old(out)@);
    while i < vals.len()
        invariant
            0 <= i <= vals@.len(),
            out@ == old(out)@ + enc_u64s(vals@.take(i as int)),
        decreases vals@.len() - i,
    {
        put_u64(out, vals[i]);
        proof {
            let done = vals@.take(i as int);
            lemma_enc_u64s_push(done, vals@[i as int]);
            assert(vals@.take(i + 1) =~= done.push(vals@[i as int]));
            assert(out@ =~= old(out)@ + enc_u64s(vals@.take(i + 1)));
        }
        i += 1;
    }
    assert(vals@.take(vals@.len() as int) =~= vals@);
}

/// Appends the byte strings, one after the other.
pub fn put_chunks(out: &mut Vec<u8>, chunks: &Vec<&[u8]>)
    ensures
        final(out)@ == old(out)@ + concat(slices_view(chunks@)),
{
    let ghost all = slices_view(chunks@);
    let mut i: usize = 0;
    assert(all.take(0) =~= Seq::<Seq<u8>>::empty());
    assert(old(out)@ + concat(Seq::<Seq<u8>>::empty()) =~= old(out)@);
    while i < chunks.len()
        invariant
            0 <= i <= chunks@.len(),
            all == slices_view(chunks@),
            out@ == old(out)@ + concat(all.take(i as int)),
        decreases chunks@.len() - i,
    {
        out.extend_from_slice(chunks[i]);
        proof {
            let done = all.take(i as int);
            lemma_concat_push(done, all[i as int]);
            assert(all.take(i + 1) =~= done.push(all[i as int]));
            assert(out@ =~= old(out)@ + concat(all.take(i + 1)));
        }
        i += 1;
    }
    assert(all.take(chunks@.len() as int) =~= all);
}

/// Byte strings held in a vector have lengths that fit a 64-bit integer.
pub proof fn lemma_slices_framable(slices: Seq<&[u8]>)
    ensures
        framable(slices_view(slices)),
{
    assert forall|i: int| 0 <= i < slices.len() implies (#[trigger] slices_view(slices)[i]).len()
        <= u64::MAX by {
        vstd::slice::axiom_spec_len(slices[i]);
    }
}

/// The byte strings that a vector of slices holds, in order.
pub open spec fn slices_view(slices: Seq<&[u8]>) -> Seq<Seq<u8>> {
    Seq::new(slices.len(), |i: int| slices[i]@)
}

} // verus!
