//! Big-endian fixed-width integers on the wire.
use vstd::prelude::*;

verus! {

pub open spec fn u16_be(v: u16) -> Seq<u8> {
    seq![(v >> 8u16) as u8, v as u8]
}

pub open spec fn u32_be(v: u32) -> Seq<u8> {
    seq![(v >> 24u32) as u8, (v >> 16u32) as u8, (v >> 8u32) as u8, v as u8]
}

pub open spec fn u64_be(v: u64) -> Seq<u8> {
    seq![
        (v >> 56u64) as u8,
        (v >> 48u64) as u8,
        (v >> 40u64) as u8,
        (v >> 32u64) as u8,
        (v >> 24u64) as u8,
        (v >> 16u64) as u8,
        (v >> 8u64) as u8,
        v as u8,
    ]
}

pub open spec fn be_u16(b0: u8, b1: u8) -> u16 {
    (b0 as u16) << 8u16 | b1 as u16
}

pub open spec fn be_u32(b0: u8, b1: u8, b2: u8, b3: u8) -> u32 {
    (b0 as u32) << 24u32 | (b1 as u32) << 16u32 | (b2 as u32) << 8u32 | b3 as u32
}

pub open spec fn be_u64(b: Seq<u8>) -> u64 {
    (b[0] as u64) << 56u64 | (b[1] as u64) << 48u64 | (b[2] as u64) << 40u64 | (b[3] as u64)
        << 32u64 | (b[4] as u64) << 24u64 | (b[5] as u64) << 16u64 | (b[6] as u64) << 8u64
        | b[7] as u64
}

/// The 16-bit big-endian value at `p`.
pub open spec fn u16_at(d: Seq<u8>, p: int) -> u16 {
    be_u16(d[p], d[p + 1])
}

/// The 32-bit big-endian value at `p`.
pub open spec fn u32_at(d: Seq<u8>, p: int) -> u32 {
    be_u32(d[p], d[p + 1], d[p + 2], d[p + 3])
}

/// The 64-bit big-endian value at `p`.
pub open spec fn u64_at(d: Seq<u8>, p: int) -> u64 {
    be_u64(d.subrange(p, p + 8))
}

pub proof fn lemma_u16_round_trip(v: u16)
    ensures
        be_u16(u16_be(v)[0], u16_be(v)[1]) == v,
{
    assert(((((v >> 8u16) as u8) as u16) << 8u16 | ((v as u8) as u16)) == v) by (bit_vector);
}

pub proof fn lemma_u32_round_trip(v: u32)
    ensures
        be_u32(u32_be(v)[0], u32_be(v)[1], u32_be(v)[2], u32_be(v)[3]) == v,
{
    assert(((((v >> 24u32) as u8) as u32) << 24u32 | (((v >> 16u32) as u8) as u32) << 16u32 | (((
    v >> 8u32) as u8) as u32) << 8u32 | ((v as u8) as u32)) == v) by (bit_vector);
}

pub proof fn lemma_u64_round_trip(v: u64)
    ensures
        be_u64(u64_be(v)) == v,
{
    assert(((((v >> 56u64) as u8) as u64) << 56u64 | (((v >> 48u64) as u8) as u64) << 48u64 | (((
    v >> 40u64) as u8) as u64) << 40u64 | (((v >> 32u64) as u8) as u64) << 32u64 | (((v
        >> 24u64) as u8) as u64) << 24u64 | (((v >> 16u64) as u8) as u64) << 16u64 | (((v
        >> 8u64) as u8) as u64) << 8u64 | ((v as u8) as u64)) == v) by (bit_vector);
}

/// Appends the big-endian bytes of a 16-bit value.
pub fn push_u16(out: &mut Vec<u8>, v: u16)
    ensures
        final(out)@ == old(out)@ + u16_be(v),
{
    out.push((v >> 8u16) as u8);
    out.push(v as u8);
    assert(final(out)@ =~= old(out)@ + u16_be(v));
}

/// Appends the big-endian bytes of a 32-bit value.
pub fn push_u32(out: &mut Vec<u8>, v: u32)
    ensures
        final(out)@ == old(out)@ + u32_be(v),
{
    out.push((v >> 24u32) as u8);
    out.push((v >> 16u32) as u8);
    out.push((v >> 8u32) as u8);
    out.push(v as u8);
    assert(final(out)@ =~= old(out)@ + u32_be(v));
}

/// Appends the big-endian bytes of a 64-bit value.
pub fn push_u64(out: &mut Vec<u8>, v: u64)
    ensures
        final(out)@ == old(out)@ + u64_be(v),
{
    out.push((v >> 56u64) as u8);
    out.push((v >> 48u64) as u8);
    out.push((v >> 40u64) as u8);
    out.push((v >> 32u64) as u8);
    out.push((v >> 24u64) as u8);
    out.push((v >> 16u64) as u8);
    out.push((v >> 8u64) as u8);
    out.push(v as u8);
    assert(final(out)@ =~= old(out)@ + u64_be(v));
}

/// Appends a run of bytes.
pub fn push_all(out: &mut Vec<u8>, b: &[u8])
    ensures
        final(out)@ == old(out)@ + b@,
{
    let mut i: usize = 0;
    while i < b.len()
        invariant
            0 <= i <= b@.len(),
            out@ == old(out)@ + b@.subrange(0, i as int),
        decreases b@.len() - i,
    {
        out.push(b[i]);
        i = i + 1;
        assert(out@ =~= old(out)@ + b@.subrange(0, i as int));
    }
    assert(b@.subrange(0, b@.len() as int) =~= b@);
}

} // verus!
