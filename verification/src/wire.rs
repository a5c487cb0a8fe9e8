//! Fixed-width little-endian integer fields.
//!
//! A field of 2, 4 or 8 bytes holds an unsigned integer, least significant
//! byte first. The wider fields are stated through the narrower ones: the low
//! half comes first.

use vstd::prelude::*;

verus! {

/// The two bytes of `x`, least significant first.
pub open spec fn u16_le(x: u16) -> Seq<u8> {
    seq![(x % 0x100) as u8, (x / 0x100) as u8]
}

/// The four bytes of `x`, least significant first.
pub open spec fn u32_le(x: u32) -> Seq<u8> {
    u16_le((x % 0x1_0000) as u16) + u16_le((x / 0x1_0000) as u16)
}

/// The eight bytes of `x`, least significant first.
pub open spec fn u64_le(x: u64) -> Seq<u8> {
    u32_le((x % 0x1_0000_0000) as u32) + u32_le((x / 0x1_0000_0000) as u32)
}

/// The number that the first two bytes of `bytes` spell.
pub open spec fn u16_from_le(bytes: Seq<u8>) -> u16
    recommends
        bytes.len() >= 2,
{
    (bytes[0] as int + 0x100 * bytes[1] as int) as u16
}

/// The number that the first four bytes of `bytes` spell.
pub open spec fn u32_from_le(bytes: Seq<u8>) -> u32
    recommends
        bytes.len() >= 4,
{
    (u16_from_le(bytes) as int + 0x1_0000 * u16_from_le(bytes.skip(2)) as int) as u32
}

/// The number that the first eight bytes of `bytes` spell.
pub open spec fn u64_from_le(bytes: Seq<u8>) -> u64
    recommends
        bytes.len() >= 8,
{
    (u32_from_le(bytes) as int + 0x1_0000_0000 * u32_from_le(bytes.skip(4)) as int) as u64
}

/// Appends the two little-endian bytes of `x` to `out`.
pub fn put_u16_le(out: &mut Vec<u8>, x: u16)
    ensures
        final(out)@ == old(out)@ + u16_le(x),
{
    out.push((x % 0x100) as u8);
    out.push((x / 0x100) as u8);
}

/// Appends the four little-endian bytes of `x` to `out`.
pub fn put_u32_le(out: &mut Vec<u8>, x: u32)
    ensures
        final(out)@ == old(out)@ + u32_le(x),
{
    put_u16_le(out, (x % 0x1_0000) as u16);
    put_u16_le(out, (x / 0x1_0000) as u16);
}

/// Appends the eight little-endian bytes of `x` to `out`.
pub fn put_u64_le(out: &mut Vec<u8>, x: u64)
    ensures
        final(out)@ == old(out)@ + u64_le(x),
{
    put_u32_le(out, (x % 0x1_0000_0000) as u32);
    put_u32_le(out, (x / 0x1_0000_0000) as u32);
}

/// A 16-bit field is two bytes long, and whatever follows it, reading it back
/// gives the number written.
pub proof fn lemma_u16_field(x: u16, rest: Seq<u8>)
    ensures
        u16_le(x).len() == 2,
        u16_from_le(u16_le(x) + rest) == x,
{
}

/// A 32-bit field is four bytes long, and whatever follows it, reading it back
/// gives the number written.
pub proof fn lemma_u32_field(x: u32, rest: Seq<u8>)
    ensures
        u32_le(x).len() == 4,
        u32_from_le(u32_le(x) + rest) == x,
{
    let low = (x % 0x1_0000) as u16;
    let high = (x / 0x1_0000) as u16;
    lemma_u16_field(low, u16_le(high) + rest);
    lemma_u16_field(high, rest);
}

/// A 64-bit field is eight bytes long, and whatever follows it, reading it
/// back gives the number written.
pub proof fn lemma_u64_field(x: u64, rest: Seq<u8>)
    ensures
        u64_le(x).len() == 8,
        u64_from_le(u64_le(x) + rest) == x,
{
    let low = (x % 0x1_0000_0000) as u32;
    let high = (x / 0x1_0000_0000) as u32;
    lemma_u32_field(low, u32_le(high) + rest);
    lemma_u32_field(high, rest);
}

} // verus!
