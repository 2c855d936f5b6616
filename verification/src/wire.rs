//! Big-endian integers and byte ranges as they stand on the wire.

use vstd::prelude::*;
use crate::error::DecodeError;
use crate::error::EncodeError;

verus! {

/// The 16-bit value whose high byte is `hi` and whose low byte is `lo`.
pub open spec fn be16(hi: u8, lo: u8) -> u16 {
    (hi as int * 256 + lo as int) as u16
}

/// The 32-bit value of four bytes, most significant first.
pub open spec fn be32(b0: u8, b1: u8, b2: u8, b3: u8) -> u32 {
    (be16(b0, b1) as int * 65536 + be16(b2, b3) as int) as u32
}

/// Whether `n` bytes stand in `data` from offset `pos` on.
pub open spec fn has_bytes(data: Seq<u8>, pos: int, n: int) -> bool {
    0 <= pos && pos + n <= data.len()
}

/// The big-endian 16-bit value that starts at offset `pos`.
pub open spec fn u16_at(data: Seq<u8>, pos: int) -> u16 {
    be16(data[pos], data[pos + 1])
}

/// The big-endian 32-bit value that starts at offset `pos`.
pub open spec fn u32_at(data: Seq<u8>, pos: int) -> u32 {
    be32(data[pos], data[pos + 1], data[pos + 2], data[pos + 3])
}

/// The two bytes of `v`, high byte first.
pub open spec fn u16_bytes(v: u16) -> Seq<u8> {
    seq![(v as int / 256) as u8, (v as int % 256) as u8]
}

/// The four bytes of `v`, most significant first.
pub open spec fn u32_bytes(v: u32) -> Seq<u8> {
    u16_bytes((v as int / 65536) as u16) + u16_bytes((v as int % 65536) as u16)
}

/// The buffer cut off behind its first `k` bytes.
pub open spec fn cut(data: Seq<u8>, k: int) -> Seq<u8> {
    data.take(k)
}

/// What a decoder has found: the value and the offset behind it.
pub type Decoded<T> = Result<(T, int), DecodeError>;

/// `r` with `prefix` put in front of the items it found.
pub open spec fn prepend<T>(prefix: Seq<T>, r: Decoded<Seq<T>>) -> Decoded<Seq<T>> {
    match r {
        Ok((rest, end)) => Ok((prefix + rest, end)),
        Err(e) => Err(e),
    }
}

/// `r` with `prefix` put in front of the bytes it holds.
pub open spec fn prepend_bytes(prefix: Seq<u8>, r: Result<Seq<u8>, EncodeError>) -> Result<
    Seq<u8>,
    EncodeError,
> {
    match r {
        Ok(rest) => Ok(prefix + rest),
        Err(e) => Err(e),
    }
}

/// The two bytes written for `v` are read back as `v`.
pub proof fn lemma_be16_of_bytes(v: u16)
    ensures
        u16_bytes(v).len() == 2,
        be16(u16_bytes(v)[0], u16_bytes(v)[1]) == v,
{
}

/// The four bytes written for `v` are read back as `v`.
pub proof fn lemma_be32_of_bytes(v: u32)
    ensures
        u32_bytes(v).len() == 4,
        be32(u32_bytes(v)[0], u32_bytes(v)[1], u32_bytes(v)[2], u32_bytes(v)[3]) == v,
{
    let head = (v as int / 65536) as u16;
    let tail = (v as int % 65536) as u16;
    lemma_be16_of_bytes(head);
    lemma_be16_of_bytes(tail);
    assert(u32_bytes(v)[0] == u16_bytes(head)[0]);
    assert(u32_bytes(v)[1] == u16_bytes(head)[1]);
    assert(u32_bytes(v)[2] == u16_bytes(tail)[0]);
    assert(u32_bytes(v)[3] == u16_bytes(tail)[1]);
}

/// Where the two bytes written for `v` stand at offset `pos`, `v` is read
/// there.
pub(crate) proof fn lemma_u16_read_of_bytes(data: Seq<u8>, pos: int, v: u16)
    requires
        has_bytes(data, pos, 2),
        data.subrange(pos, pos + 2) == u16_bytes(v),
    ensures
        u16_at(data, pos) == v,
{
    lemma_be16_of_bytes(v);
    assert(data[pos] == data.subrange(pos, pos + 2)[0]);
    assert(data[pos + 1] == data.subrange(pos, pos + 2)[1]);
}

/// Where the four bytes written for `v` stand at offset `pos`, `v` is read
/// there.
pub(crate) proof fn lemma_u32_read_of_bytes(data: Seq<u8>, pos: int, v: u32)
    requires
        has_bytes(data, pos, 4),
        data.subrange(pos, pos + 4) == u32_bytes(v),
    ensures
        u32_at(data, pos) == v,
{
    lemma_be32_of_bytes(v);
    assert(data[pos] == data.subrange(pos, pos + 4)[0]);
    assert(data[pos + 1] == data.subrange(pos, pos + 4)[1]);
    assert(data[pos + 2] == data.subrange(pos, pos + 4)[2]);
    assert(data[pos + 3] == data.subrange(pos, pos + 4)[3]);
}

/// Writing the 16-bit value that was read at offset `pos` gives the two
/// bytes that stand there.
pub(crate) proof fn lemma_u16_bytes_of_read(data: Seq<u8>, pos: int)
    requires
        has_bytes(data, pos, 2),
    ensures
        u16_bytes(u16_at(data, pos)) == data.subrange(pos, pos + 2),
{
    assert(u16_bytes(u16_at(data, pos)) =~= data.subrange(pos, pos + 2));
}

/// Writing the 32-bit value that was read at offset `pos` gives the four
/// bytes that stand there.
pub(crate) proof fn lemma_u32_bytes_of_read(data: Seq<u8>, pos: int)
    requires
        has_bytes(data, pos, 4),
    ensures
        u32_bytes(u32_at(data, pos)) == data.subrange(pos, pos + 4),
{
    let head = u16_at(data, pos);
    let tail = u16_at(data, pos + 2);
    let v = u32_at(data, pos);
    lemma_u16_bytes_of_read(data, pos);
    lemma_u16_bytes_of_read(data, pos + 2);
    assert(v == head * 65536 + tail);
    assert(v as int / 65536 == head);
    assert(v as int % 65536 == tail);
    assert(data.subrange(pos, pos + 2) + data.subrange(pos + 2, pos + 4) =~= data.subrange(
        pos,
        pos + 4,
    ));
}

/// Four runs of bytes in a row are the same bytes however they are grouped.
pub(crate) proof fn lemma_regroup(a: Seq<u8>, b: Seq<u8>, c: Seq<u8>, d: Seq<u8>)
    ensures
        a + (b + c) + d == a + b + c + d,
        a + b + (c + d) == a + b + c + d,
        a + (b + c + d) == a + b + c + d,
{
    assert(a + (b + c) + d =~= a + b + c + d);
    assert(a + b + (c + d) =~= a + b + c + d);
    assert(a + (b + c + d) =~= a + b + c + d);
}

/// Cutting a buffer behind offset `k` leaves what stands before `k` as it
/// was: bytes, byte ranges and the integers read from them.
pub(crate) proof fn lemma_cut_keeps(data: Seq<u8>, k: int, pos: int, n: int)
    requires
        0 <= pos,
        0 <= n,
        pos + n <= k <= data.len(),
    ensures
        has_bytes(cut(data, k), pos, n),
        cut(data, k).subrange(pos, pos + n) == data.subrange(pos, pos + n),
        forall|i: int| pos <= i < pos + n ==> cut(data, k)[i] == data[i],
        n >= 2 ==> u16_at(cut(data, k), pos) == u16_at(data, pos),
        n >= 4 ==> u32_at(cut(data, k), pos) == u32_at(data, pos),
{
    assert(cut(data, k).subrange(pos, pos + n) =~= data.subrange(pos, pos + n));
}

/// Appends the two bytes of `v` to `out`, high byte first.
pub(crate) fn push_u16(out: &mut Vec<u8>, v: u16)
    ensures
        final(out)@ == old(out)@ + u16_bytes(v),
{
    out.push((v / 256) as u8);
    out.push((v % 256) as u8);
}

/// Appends the four bytes of `v` to `out`, most significant first.
pub(crate) fn push_u32(out: &mut Vec<u8>, v: u32)
    ensures
        final(out)@ == old(out)@ + u32_bytes(v),
{
    push_u16(out, (v / 65536) as u16);
    push_u16(out, (v % 65536) as u16);
    assert(out@ =~= old(out)@ + u32_bytes(v));
}

/// Appends the bytes of `src` to `out`.
pub(crate) fn push_all(out: &mut Vec<u8>, src: &[u8])
    ensures
        final(out)@ == old(out)@ + src@,
{
    let mut i: usize = 0;
    while i < src.len()
        invariant
            i <= src@.len(),
            out@ == old(out)@ + src@.subrange(0, i as int),
        decreases src@.len() - i,
    {
        out.push(src[i]);
        i += 1;
    }
}

/// A copy of the bytes of `data` from offset `start` up to `end`.
pub(crate) fn copy_range(data: &[u8], start: usize, end: usize) -> (r: Vec<u8>)
    requires
        start <= end <= data@.len(),
    ensures
        r@ == data@.subrange(start as int, end as int),
{
    let mut r: Vec<u8> = Vec::new();
    let mut i: usize = start;
    while i < end
        invariant
            start <= i <= end <= data@.len(),
            r@ == data@.subrange(start as int, i as int),
        decreases end - i,
    {
        r.push(data[i]);
        i += 1;
    }
    r
}

} // verus!
