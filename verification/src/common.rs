//! Settings of a queue, and the four-byte form in which an index is kept.

use vstd::prelude::*;

verus! {

/// The settings of a queue.
#[derive(Debug, Clone)]
pub struct Config {
    /// The most bytes that the queue may hold in memory.
    pub maximum_queue_in_bytes: u32,
    /// The directory that holds the queue files.
    pub root_dir: String,
}

/// The number that four bytes spell, the third byte of the number first,
/// then the fourth, the second and the first, counted from the least
/// significant.
pub open spec fn abe_value(bytes: Seq<u8>) -> int {
    bytes[3] + bytes[2] * 0x100 + bytes[1] * 0x100_0000 + bytes[0] * 0x1_0000
}

/// The four bytes of `v`, the least significant first, then the second,
/// the fourth and the third.
pub open spec fn abe_bytes(v: u32) -> Seq<u8> {
    seq![
        (v % 0x100) as u8,
        (v / 0x100 % 0x100) as u8,
        (v / 0x100_0000) as u8,
        (v / 0x1_0000 % 0x100) as u8,
    ]
}

/// The number that the first four bytes of `v` spell.
#[inline]
pub fn u8tou32abe(v: &[u8]) -> (r: u32)
    requires
        v@.len() >= 4,
    ensures
        r == abe_value(v@),
{
    let b0: u32 = v[0] as u32;
    let b1: u32 = v[1] as u32;
    let b2: u32 = v[2] as u32;
    let b3: u32 = v[3] as u32;
    assert(b2 << 8 == b2 * 0x100) by (bit_vector)
        requires
            b2 < 0x100,
    ;
    assert(b1 << 24 == b1 * 0x100_0000) by (bit_vector)
        requires
            b1 < 0x100,
    ;
    assert(b0 << 16 == b0 * 0x1_0000) by (bit_vector)
        requires
            b0 < 0x100,
    ;
    b3 + (b2 << 8) + (b1 << 24) + (b0 << 16)
}

/// The four bytes of `v`.
#[inline]
pub fn u32tou8abe(v: u32) -> (r: [u8; 4])
    ensures
        r@ == abe_bytes(v),
{
    assert(v as u8 == (v % 0x100) as u8) by (bit_vector);
    assert((v >> 8) as u8 == (v / 0x100 % 0x100) as u8) by (bit_vector);
    assert((v >> 24) as u8 == (v / 0x100_0000) as u8) by (bit_vector);
    assert((v >> 16) as u8 == (v / 0x1_0000 % 0x100) as u8) by (bit_vector);
    let r = [
        #[verifier::truncate]
        (v as u8),
        #[verifier::truncate]
        ((v >> 8) as u8),
        #[verifier::truncate]
        ((v >> 24) as u8),
        #[verifier::truncate]
        ((v >> 16) as u8),
    ];
    assert(r@ =~= abe_bytes(v));
    r
}

} // verus!
