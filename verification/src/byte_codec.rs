//! Little-endian integer encoding and a byte cursor.

use vstd::prelude::*;

verus! {

/// The four little-endian bytes of `x`.
pub open spec fn u32_le(x: u32) -> Seq<u8> {
    seq![
        (x & 0xffu32) as u8,
        ((x >> 8u32) & 0xffu32) as u8,
        ((x >> 16u32) & 0xffu32) as u8,
        ((x >> 24u32) & 0xffu32) as u8,
    ]
}

/// The integer whose little-endian bytes start `s`.
pub open spec fn u32_from_le(s: Seq<u8>) -> u32 {
    (s[0] as u32) | ((s[1] as u32) << 8u32) | ((s[2] as u32) << 16u32) | ((s[3] as u32) << 24u32)
}

/// The eight little-endian bytes of `x`.
pub open spec fn u64_le(x: u64) -> Seq<u8> {
    seq![
        (x & 0xffu64) as u8,
        ((x >> 8u64) & 0xffu64) as u8,
        ((x >> 16u64) & 0xffu64) as u8,
        ((x >> 24u64) & 0xffu64) as u8,
        ((x >> 32u64) & 0xffu64) as u8,
        ((x >> 40u64) & 0xffu64) as u8,
        ((x >> 48u64) & 0xffu64) as u8,
        ((x >> 56u64) & 0xffu64) as u8,
    ]
}

/// The integer whose little-endian bytes start `s`.
pub open spec fn u64_from_le(s: Seq<u8>) -> u64 {
    (s[0] as u64) | ((s[1] as u64) << 8u64) | ((s[2] as u64) << 16u64) | ((s[3] as u64) << 24u64)
        | ((s[4] as u64) << 32u64) | ((s[5] as u64) << 40u64) | ((s[6] as u64) << 48u64)
        | ((s[7] as u64) << 56u64)
}

/// Decoding the little-endian bytes of a `u32` gives it back.
pub proof fn lemma_u32_roundtrip(x: u32)
    ensures
        u32_from_le(u32_le(x)) == x,
{
    let b0 = (x & 0xffu32) as u8;
    let b1 = ((x >> 8u32) & 0xffu32) as u8;
    let b2 = ((x >> 16u32) & 0xffu32) as u8;
    let b3 = ((x >> 24u32) & 0xffu32) as u8;
    assert(u32_le(x)[0] == b0 && u32_le(x)[1] == b1 && u32_le(x)[2] == b2 && u32_le(x)[3] == b3);
    assert((b0 as u32) | ((b1 as u32) << 8u32) | ((b2 as u32) << 16u32) | ((b3 as u32) << 24u32) == x)
        by (bit_vector)
        requires
            b0 == (x & 0xffu32) as u8,
            b1 == ((x >> 8u32) & 0xffu32) as u8,
            b2 == ((x >> 16u32) & 0xffu32) as u8,
            b3 == ((x >> 24u32) & 0xffu32) as u8,
    ;
}

/// Decoding the little-endian bytes of a `u64` gives it back.
pub proof fn lemma_u64_roundtrip(x: u64)
    ensures
        u64_from_le(u64_le(x)) == x,
{
    let b0 = (x & 0xffu64) as u8;
    let b1 = ((x >> 8u64) & 0xffu64) as u8;
    let b2 = ((x >> 16u64) & 0xffu64) as u8;
    let b3 = ((x >> 24u64) & 0xffu64) as u8;
    let b4 = ((x >> 32u64) & 0xffu64) as u8;
    let b5 = ((x >> 40u64) & 0xffu64) as u8;
    let b6 = ((x >> 48u64) & 0xffu64) as u8;
    let b7 = ((x >> 56u64) & 0xffu64) as u8;
    let s = u64_le(x);
    assert(s[0] == b0 && s[1] == b1 && s[2] == b2 && s[3] == b3);
    assert(s[4] == b4 && s[5] == b5 && s[6] == b6 && s[7] == b7);
    assert((b0 as u64) | ((b1 as u64) << 8u64) | ((b2 as u64) << 16u64) | ((b3 as u64) << 24u64)
        | ((b4 as u64) << 32u64) | ((b5 as u64) << 40u64) | ((b6 as u64) << 48u64)
        | ((b7 as u64) << 56u64) == x)
        by (bit_vector)
        requires
            b0 == (x & 0xffu64) as u8,
            b1 == ((x >> 8u64) & 0xffu64) as u8,
            b2 == ((x >> 16u64) & 0xffu64) as u8,
            b3 == ((x >> 24u64) & 0xffu64) as u8,
            b4 == ((x >> 32u64) & 0xffu64) as u8,
            b5 == ((x >> 40u64) & 0xffu64) as u8,
            b6 == ((x >> 48u64) & 0xffu64) as u8,
            b7 == ((x >> 56u64) & 0xffu64) as u8,
    ;
}

/// Appends the little-endian bytes of `x` (what `u32::to_le_bytes` gives).
pub fn push_u32_le(out: &mut Vec<u8>, x: u32)
    ensures
        final(out)@ == old(out)@ + u32_le(x),
{
    out.push((x & 0xff) as u8);
    out.push(((x >> 8) & 0xff) as u8);
    out.push(((x >> 16) & 0xff) as u8);
    out.push(((x >> 24) & 0xff) as u8);
    assert(out@ =~= old(out)@ + u32_le(x));
}

/// Appends the little-endian bytes of `x` (what `u64::to_le_bytes` gives).
pub fn push_u64_le(out: &mut Vec<u8>, x: u64)
    ensures
        final(out)@ == old(out)@ + u64_le(x),
{
    out.push((x & 0xff) as u8);
    out.push(((x >> 8) & 0xff) as u8);
    out.push(((x >> 16) & 0xff) as u8);
    out.push(((x >> 24) & 0xff) as u8);
    out.push(((x >> 32) & 0xff) as u8);
    out.push(((x >> 40) & 0xff) as u8);
    out.push(((x >> 48) & 0xff) as u8);
    out.push(((x >> 56) & 0xff) as u8);
    assert(out@ =~= old(out)@ + u64_le(x));
}

/// Reads the `u8` at `pos`, if there is one.
pub fn read_u8_at(data: &[u8], pos: usize) -> (r: Option<u8>)
    ensures
        pos < data@.len() ==> r == Some(data@[pos as int]),
        pos >= data@.len() ==> r is None,
{
    if pos < data.len() {
        Some(data[pos])
    } else {
        None
    }
}

/// Reads a little-endian `u32` at `pos`, if four bytes are there
/// (what `u32::from_le_bytes` gives).
pub fn read_u32_at(data: &[u8], pos: usize) -> (r: Option<u32>)
    ensures
        pos + 4 <= data@.len() ==> r == Some(u32_from_le(data@.subrange(pos as int, pos + 4))),
        pos + 4 > data@.len() ==> r is None,
{
    if pos > data.len() || data.len() - pos < 4 {
        return None;
    }
    let v = (data[pos] as u32) | ((data[pos + 1] as u32) << 8) | ((data[pos + 2] as u32) << 16)
        | ((data[pos + 3] as u32) << 24);
    let ghost s = data@.subrange(pos as int, pos + 4);
    assert(s[0] == data@[pos as int] && s[1] == data@[pos + 1] && s[2] == data@[pos + 2] && s[3] == data@[pos + 3]);
    Some(v)
}

/// Reads a little-endian `u64` at `pos`, if eight bytes are there
/// (what `u64::from_le_bytes` gives).
pub fn read_u64_at(data: &[u8], pos: usize) -> (r: Option<u64>)
    ensures
        pos + 8 <= data@.len() ==> r == Some(u64_from_le(data@.subrange(pos as int, pos + 8))),
        pos + 8 > data@.len() ==> r is None,
{
    if pos > data.len() || data.len() - pos < 8 {
        return None;
    }
    let v = (data[pos] as u64) | ((data[pos + 1] as u64) << 8) | ((data[pos + 2] as u64) << 16)
        | ((data[pos + 3] as u64) << 24) | ((data[pos + 4] as u64) << 32) | ((data[pos + 5] as u64) << 40)
        | ((data[pos + 6] as u64) << 48) | ((data[pos + 7] as u64) << 56);
    let ghost s = data@.subrange(pos as int, pos + 8);
    assert(s[0] == data@[pos as int] && s[1] == data@[pos + 1] && s[2] == data@[pos + 2] && s[3] == data@[pos + 3]);
    assert(s[4] == data@[pos + 4] && s[5] == data@[pos + 5] && s[6] == data@[pos + 6] && s[7] == data@[pos + 7]);
    Some(v)
}

/// Re-encoding the integer read from four bytes gives the bytes back.
pub proof fn lemma_u32_le_of_from_le(b: Seq<u8>)
    requires
        b.len() == 4,
    ensures
        u32_le(u32_from_le(b)) == b,
{
    let (b0, b1, b2, b3) = (b[0], b[1], b[2], b[3]);
    let x = u32_from_le(b);
    assert(x == (b0 as u32) | ((b1 as u32) << 8u32) | ((b2 as u32) << 16u32) | ((b3 as u32) << 24u32));
    assert((x & 0xffu32) as u8 == b0 && ((x >> 8u32) & 0xffu32) as u8 == b1
        && ((x >> 16u32) & 0xffu32) as u8 == b2 && ((x >> 24u32) & 0xffu32) as u8 == b3)
        by (bit_vector)
        requires
            x == (b0 as u32) | ((b1 as u32) << 8u32) | ((b2 as u32) << 16u32) | ((b3 as u32) << 24u32),
    ;
    assert(u32_le(x) =~= b);
}

/// Re-encoding the integer read from eight bytes gives the bytes back.
pub proof fn lemma_u64_le_of_from_le(b: Seq<u8>)
    requires
        b.len() == 8,
    ensures
        u64_le(u64_from_le(b)) == b,
{
    let (b0, b1, b2, b3, b4, b5, b6, b7) = (b[0], b[1], b[2], b[3], b[4], b[5], b[6], b[7]);
    let x = u64_from_le(b);
    assert(x == (b0 as u64) | ((b1 as u64) << 8u64) | ((b2 as u64) << 16u64) | ((b3 as u64) << 24u64)
        | ((b4 as u64) << 32u64) | ((b5 as u64) << 40u64) | ((b6 as u64) << 48u64) | ((b7 as u64) << 56u64));
    assert((x & 0xffu64) as u8 == b0 && ((x >> 8u64) & 0xffu64) as u8 == b1
        && ((x >> 16u64) & 0xffu64) as u8 == b2 && ((x >> 24u64) & 0xffu64) as u8 == b3
        && ((x >> 32u64) & 0xffu64) as u8 == b4 && ((x >> 40u64) & 0xffu64) as u8 == b5
        && ((x >> 48u64) & 0xffu64) as u8 == b6 && ((x >> 56u64) & 0xffu64) as u8 == b7)
        by (bit_vector)
        requires
            x == (b0 as u64) | ((b1 as u64) << 8u64) | ((b2 as u64) << 16u64) | ((b3 as u64) << 24u64)
                | ((b4 as u64) << 32u64) | ((b5 as u64) << 40u64) | ((b6 as u64) << 48u64) | ((b7 as u64) << 56u64),
    ;
    assert(u64_le(x) =~= b);
}

/// `pre` is a prefix of `data`.
pub open spec fn starts_with(data: Seq<u8>, pre: Seq<u8>) -> bool {
    pre.len() <= data.len() && data.subrange(0, pre.len() as int) == pre
}

/// Copies `data[start..end]` into a new vector.
pub fn copy_range(data: &[u8], start: usize, end: usize) -> (r: Vec<u8>)
    requires
        start <= end <= data@.len(),
    ensures
        r@ == data@.subrange(start as int, end as int),
{
    let mut r: Vec<u8> = Vec::new();
    let mut i = start;
    while i < end
        invariant
            start <= i <= end <= data@.len(),
            r@ == data@.subrange(start as int, i as int),
        decreases end - i,
    {
        r.push(data[i]);
        i += 1;
        assert(r@ =~= data@.subrange(start as int, i as int));
    }
    r
}

} // verus!
