//! Big-endian and little-endian integer encoding on byte sequences.
//!
//! Every multi-byte field of the archive formats in this crate is read and
//! written through the functions of this module, so that their contracts can
//! all speak of the same spec-level encodings.

use vstd::prelude::*;

verus! {

/// The two-byte big-endian encoding of `x`.
pub open spec fn be16(x: u16) -> Seq<u8> {
    seq![(x >> 8) as u8, (x & 0xff) as u8]
}

/// The four-byte big-endian encoding of `x`.
pub open spec fn be32(x: u32) -> Seq<u8> {
    seq![
        (x >> 24) as u8,
        ((x >> 16) & 0xff) as u8,
        ((x >> 8) & 0xff) as u8,
        (x & 0xff) as u8,
    ]
}

/// The big-endian `u16` stored at offset `i` of `s`.
pub open spec fn r16(s: Seq<u8>, i: int) -> u16
    recommends
        0 <= i,
        i + 2 <= s.len(),
{
    ((s[i] as u16) << 8) | (s[i + 1] as u16)
}

/// The big-endian `u32` stored at offset `i` of `s`.
pub open spec fn r32(s: Seq<u8>, i: int) -> u32
    recommends
        0 <= i,
        i + 4 <= s.len(),
{
    ((s[i] as u32) << 24) | ((s[i + 1] as u32) << 16) | ((s[i + 2] as u32) << 8) | (s[i
        + 3] as u32)
}

/// The two-byte little-endian encoding of `x`.
pub open spec fn le16(x: u16) -> Seq<u8> {
    seq![(x & 0xff) as u8, (x >> 8) as u8]
}

/// The four-byte little-endian encoding of `x`.
pub open spec fn le32(x: u32) -> Seq<u8> {
    seq![
        (x & 0xff) as u8,
        ((x >> 8) & 0xff) as u8,
        ((x >> 16) & 0xff) as u8,
        (x >> 24) as u8,
    ]
}

/// The little-endian `u16` stored at offset `i` of `s`.
pub open spec fn rl16(s: Seq<u8>, i: int) -> u16
    recommends
        0 <= i,
        i + 2 <= s.len(),
{
    (s[i] as u16) | ((s[i + 1] as u16) << 8)
}

/// The little-endian `u32` stored at offset `i` of `s`.
pub open spec fn rl32(s: Seq<u8>, i: int) -> u32
    recommends
        0 <= i,
        i + 4 <= s.len(),
{
    (s[i] as u32) | ((s[i + 1] as u32) << 8) | ((s[i + 2] as u32) << 16) | ((s[i
        + 3] as u32) << 24)
}

/// Reading back the big-endian encoding of a `u16` yields the value again.
pub broadcast proof fn lemma_r16_be16(x: u16)
    ensures
        #[trigger] r16(be16(x), 0) == x,
{
    assert(((((x >> 8) as u8) as u16) << 8) | (((x & 0xff) as u8) as u16) == x) by (bit_vector);
}

/// Reading back the big-endian encoding of a `u32` yields the value again.
pub broadcast proof fn lemma_r32_be32(x: u32)
    ensures
        #[trigger] r32(be32(x), 0) == x,
{
    assert(((((x >> 24) as u8) as u32) << 24) | (((((x >> 16) & 0xff) as u8) as u32) << 16) | ((((
    (x >> 8) & 0xff) as u8) as u32) << 8) | (((x & 0xff) as u8) as u32) == x) by (bit_vector);
}

/// Reading back the little-endian encoding of a `u16` yields the value again.
pub broadcast proof fn lemma_rl16_le16(x: u16)
    ensures
        #[trigger] rl16(le16(x), 0) == x,
{
    assert((((x & 0xff) as u8) as u16) | ((((x >> 8) as u8) as u16) << 8) == x) by (bit_vector);
}

/// Reading back the little-endian encoding of a `u32` yields the value again.
pub broadcast proof fn lemma_rl32_le32(x: u32)
    ensures
        #[trigger] rl32(le32(x), 0) == x,
{
    assert((((x & 0xff) as u8) as u32) | (((((x >> 8) & 0xff) as u8) as u32) << 8) | (((((x >> 16)
        & 0xff) as u8) as u32) << 16) | ((((x >> 24) as u8) as u32) << 24) == x) by (bit_vector);
}

/// `r16` only looks at the two bytes at its offset.
pub proof fn lemma_r16_frame(s1: Seq<u8>, i1: int, s2: Seq<u8>, i2: int)
    requires
        0 <= i1,
        i1 + 2 <= s1.len(),
        0 <= i2,
        i2 + 2 <= s2.len(),
        s1.subrange(i1, i1 + 2) == s2.subrange(i2, i2 + 2),
    ensures
        r16(s1, i1) == r16(s2, i2),
{
    assert(s1[i1] == s1.subrange(i1, i1 + 2)[0]);
    assert(s1[i1 + 1] == s1.subrange(i1, i1 + 2)[1]);
    assert(s2[i2] == s2.subrange(i2, i2 + 2)[0]);
    assert(s2[i2 + 1] == s2.subrange(i2, i2 + 2)[1]);
}

/// `r32` only looks at the four bytes at its offset.
pub proof fn lemma_r32_frame(s1: Seq<u8>, i1: int, s2: Seq<u8>, i2: int)
    requires
        0 <= i1,
        i1 + 4 <= s1.len(),
        0 <= i2,
        i2 + 4 <= s2.len(),
        s1.subrange(i1, i1 + 4) == s2.subrange(i2, i2 + 4),
    ensures
        r32(s1, i1) == r32(s2, i2),
{
    assert(s1[i1] == s1.subrange(i1, i1 + 4)[0] && s2[i2] == s2.subrange(i2, i2 + 4)[0]);
    assert(s1[i1 + 1] == s1.subrange(i1, i1 + 4)[1] && s2[i2 + 1] == s2.subrange(i2, i2 + 4)[1]);
    assert(s1[i1 + 2] == s1.subrange(i1, i1 + 4)[2] && s2[i2 + 2] == s2.subrange(i2, i2 + 4)[2]);
    assert(s1[i1 + 3] == s1.subrange(i1, i1 + 4)[3] && s2[i2 + 3] == s2.subrange(i2, i2 + 4)[3]);
}

/// Read a big-endian `u16` from a byte slice.
pub fn read_u16_be(data: &[u8], offset: usize) -> (x: u16)
    requires
        offset + 2 <= data@.len(),
    ensures
        x == r16(data@, offset as int),
{
    ((data[offset] as u16) << 8) | (data[offset + 1] as u16)
}

/// Read a big-endian `u32` from a byte slice.
pub fn read_u32_be(data: &[u8], offset: usize) -> (x: u32)
    requires
        offset + 4 <= data@.len(),
    ensures
        x == r32(data@, offset as int),
{
    ((data[offset] as u32) << 24) | ((data[offset + 1] as u32) << 16) | ((data[offset
        + 2] as u32) << 8) | (data[offset + 3] as u32)
}

/// Read a little-endian `u16` from a byte slice.
pub fn read_u16_le(data: &[u8], offset: usize) -> (x: u16)
    requires
        offset + 2 <= data@.len(),
    ensures
        x == rl16(data@, offset as int),
{
    (data[offset] as u16) | ((data[offset + 1] as u16) << 8)
}

/// Read a little-endian `u32` from a byte slice.
pub fn read_u32_le(data: &[u8], offset: usize) -> (x: u32)
    requires
        offset + 4 <= data@.len(),
    ensures
        x == rl32(data@, offset as int),
{
    (data[offset] as u32) | ((data[offset + 1] as u32) << 8) | ((data[offset + 2] as u32) << 16)
        | ((data[offset + 3] as u32) << 24)
}

/// Append the big-endian encoding of a `u16` to a byte vector.
pub fn push_u16_be(out: &mut Vec<u8>, x: u16)
    ensures
        final(out)@ == old(out)@ + be16(x),
{
    out.push((x >> 8) as u8);
    out.push((x & 0xff) as u8);
    assert(out@ =~= old(out)@ + be16(x));
}

/// Append the big-endian encoding of a `u32` to a byte vector.
pub fn push_u32_be(out: &mut Vec<u8>, x: u32)
    ensures
        final(out)@ == old(out)@ + be32(x),
{
    out.push((x >> 24) as u8);
    out.push(((x >> 16) & 0xff) as u8);
    out.push(((x >> 8) & 0xff) as u8);
    out.push((x & 0xff) as u8);
    assert(out@ =~= old(out)@ + be32(x));
}

/// Append the little-endian encoding of a `u16` to a byte vector.
pub fn push_u16_le(out: &mut Vec<u8>, x: u16)
    ensures
        final(out)@ == old(out)@ + le16(x),
{
    out.push((x & 0xff) as u8);
    out.push((x >> 8) as u8);
    assert(out@ =~= old(out)@ + le16(x));
}

/// Append the little-endian encoding of a `u32` to a byte vector.
pub fn push_u32_le(out: &mut Vec<u8>, x: u32)
    ensures
        final(out)@ == old(out)@ + le32(x),
{
    out.push((x & 0xff) as u8);
    out.push(((x >> 8) & 0xff) as u8);
    out.push(((x >> 16) & 0xff) as u8);
    out.push((x >> 24) as u8);
    assert(out@ =~= old(out)@ + le32(x));
}

} // verus!
