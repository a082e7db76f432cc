//! Little-endian byte images of the fixed-width integers used by the frame
//! format, with executable readers and writers proved against them.

use vstd::prelude::*;

verus! {

/// The two-byte little-endian image of a 16-bit value.
pub open spec fn le16_bytes(v: u16) -> Seq<u8> {
    seq![(v & 0xff) as u8, ((v >> 8) & 0xff) as u8]
}

/// The 16-bit value read from a two-byte little-endian image.
pub open spec fn le16_value(b: Seq<u8>) -> u16
    recommends
        b.len() == 2,
{
    (b[0] as u16) | ((b[1] as u16) << 8)
}

/// The four-byte little-endian image of a 32-bit value.
pub open spec fn le32_bytes(v: u32) -> Seq<u8> {
    seq![
        (v & 0xff) as u8,
        ((v >> 8) & 0xff) as u8,
        ((v >> 16) & 0xff) as u8,
        ((v >> 24) & 0xff) as u8,
    ]
}

/// The 32-bit value read from a four-byte little-endian image.
pub open spec fn le32_value(b: Seq<u8>) -> u32
    recommends
        b.len() == 4,
{
    (b[0] as u32) | ((b[1] as u32) << 8) | ((b[2] as u32) << 16) | ((b[3] as u32) << 24)
}

/// The eight-byte little-endian image of a 64-bit value.
pub open spec fn le64_bytes(v: u64) -> Seq<u8> {
    seq![
        (v & 0xff) as u8,
        ((v >> 8) & 0xff) as u8,
        ((v >> 16) & 0xff) as u8,
        ((v >> 24) & 0xff) as u8,
        ((v >> 32) & 0xff) as u8,
        ((v >> 40) & 0xff) as u8,
        ((v >> 48) & 0xff) as u8,
        ((v >> 56) & 0xff) as u8,
    ]
}

/// The 64-bit value read from an eight-byte little-endian image.
pub open spec fn le64_value(b: Seq<u8>) -> u64
    recommends
        b.len() == 8,
{
    (b[0] as u64) | ((b[1] as u64) << 8) | ((b[2] as u64) << 16) | ((b[3] as u64) << 24)
        | ((b[4] as u64) << 32) | ((b[5] as u64) << 40) | ((b[6] as u64) << 48)
        | ((b[7] as u64) << 56)
}

/// Reading back the little-endian image of a 16-bit value recovers it.
pub proof fn lemma_le16_roundtrip(v: u16)
    ensures
        le16_value(le16_bytes(v)) == v,
{
    assert((((v & 0xff) as u8) as u16) | (((((v >> 8) & 0xff) as u8) as u16) << 8) == v)
        by (bit_vector);
}

/// Reading back the little-endian image of a 32-bit value recovers it.
pub proof fn lemma_le32_roundtrip(v: u32)
    ensures
        le32_value(le32_bytes(v)) == v,
{
    assert((((v & 0xff) as u8) as u32) | (((((v >> 8) & 0xff) as u8) as u32) << 8)
        | (((((v >> 16) & 0xff) as u8) as u32) << 16) | (((((v >> 24) & 0xff) as u8) as u32) << 24)
        == v) by (bit_vector);
}

/// Reading back the little-endian image of a 64-bit value recovers it.
pub proof fn lemma_le64_roundtrip(v: u64)
    ensures
        le64_value(le64_bytes(v)) == v,
{
    assert((((v & 0xff) as u8) as u64) | (((((v >> 8) & 0xff) as u8) as u64) << 8)
        | (((((v >> 16) & 0xff) as u8) as u64) << 16) | (((((v >> 24) & 0xff) as u8) as u64) << 24)
        | (((((v >> 32) & 0xff) as u8) as u64) << 32) | (((((v >> 40) & 0xff) as u8) as u64) << 40)
        | (((((v >> 48) & 0xff) as u8) as u64) << 48) | (((((v >> 56) & 0xff) as u8) as u64) << 56)
        == v) by (bit_vector);
}

/// Appends the two-byte little-endian image of `v` to `out`.
pub fn push_le16(out: &mut Vec<u8>, v: u16)
    ensures
        final(out)@ == old(out)@ + le16_bytes(v),
{
    out.push((v & 0xff) as u8);
    out.push(((v >> 8) & 0xff) as u8);
    proof {
        assert(out@ =~= old(out)@ + le16_bytes(v));
    }
}

/// Appends the four-byte little-endian image of `v` to `out`.
pub fn push_le32(out: &mut Vec<u8>, v: u32)
    ensures
        final(out)@ == old(out)@ + le32_bytes(v),
{
    out.push((v & 0xff) as u8);
    out.push(((v >> 8) & 0xff) as u8);
    out.push(((v >> 16) & 0xff) as u8);
    out.push(((v >> 24) & 0xff) as u8);
    proof {
        assert(out@ =~= old(out)@ + le32_bytes(v));
    }
}

/// Appends the eight-byte little-endian image of `v` to `out`.
pub fn push_le64(out: &mut Vec<u8>, v: u64)
    ensures
        final(out)@ == old(out)@ + le64_bytes(v),
{
    out.push((v & 0xff) as u8);
    out.push(((v >> 8) & 0xff) as u8);
    out.push(((v >> 16) & 0xff) as u8);
    out.push(((v >> 24) & 0xff) as u8);
    out.push(((v >> 32) & 0xff) as u8);
    out.push(((v >> 40) & 0xff) as u8);
    out.push(((v >> 48) & 0xff) as u8);
    out.push(((v >> 56) & 0xff) as u8);
    proof {
        assert(out@ =~= old(out)@ + le64_bytes(v));
    }
}

/// Reads the 16-bit little-endian value at offset `i` of `b`.
pub fn read_le16(b: &Vec<u8>, i: usize) -> (r: u16)
    requires
        i + 2 <= b.len(),
    ensures
        r == le16_value(b@.subrange(i as int, i as int + 2)),
{
    let r = (b[i] as u16) | ((b[i + 1] as u16) << 8);
    proof {
        let s = b@.subrange(i as int, i as int + 2);
        assert(s[0] == b@[i as int]);
        assert(s[1] == b@[i as int + 1]);
    }
    r
}

/// Reads the 32-bit little-endian value at offset `i` of `b`.
pub fn read_le32(b: &Vec<u8>, i: usize) -> (r: u32)
    requires
        i + 4 <= b.len(),
    ensures
        r == le32_value(b@.subrange(i as int, i as int + 4)),
{
    let r = (b[i] as u32) | ((b[i + 1] as u32) << 8) | ((b[i + 2] as u32) << 16)
        | ((b[i + 3] as u32) << 24);
    proof {
        let s = b@.subrange(i as int, i as int + 4);
        assert(s[0] == b@[i as int]);
        assert(s[1] == b@[i as int + 1]);
        assert(s[2] == b@[i as int + 2]);
        assert(s[3] == b@[i as int + 3]);
    }
    r
}

/// Reads the 64-bit little-endian value at offset `i` of `b`.
pub fn read_le64(b: &Vec<u8>, i: usize) -> (r: u64)
    requires
        i + 8 <= b.len(),
    ensures
        r == le64_value(b@.subrange(i as int, i as int + 8)),
{
    let r = (b[i] as u64) | ((b[i + 1] as u64) << 8) | ((b[i + 2] as u64) << 16)
        | ((b[i + 3] as u64) << 24) | ((b[i + 4] as u64) << 32) | ((b[i + 5] as u64) << 40)
        | ((b[i + 6] as u64) << 48) | ((b[i + 7] as u64) << 56);
    proof {
        let s = b@.subrange(i as int, i as int + 8);
        assert(s[0] == b@[i as int]);
        assert(s[1] == b@[i as int + 1]);
        assert(s[2] == b@[i as int + 2]);
        assert(s[3] == b@[i as int + 3]);
        assert(s[4] == b@[i as int + 4]);
        assert(s[5] == b@[i as int + 5]);
        assert(s[6] == b@[i as int + 6]);
        assert(s[7] == b@[i as int + 7]);
    }
    r
}

} // verus!
