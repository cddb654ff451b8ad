//! The word operations that gates compute.
use vstd::prelude::*;

verus! {

/// The truth value as a word: all ones or all zeros.
pub open spec fn mask(b: bool) -> u64 {
    if b {
        0xffff_ffff_ffff_ffff
    } else {
        0
    }
}

/// Whether a word counts as true: its most significant bit is set.
pub open spec fn is_true(x: u64) -> bool {
    x >= 0x8000_0000_0000_0000
}

/// The sum modulo `2^64`.
pub open spec fn add64(x: u64, y: u64) -> u64 {
    ((x + y) % 0x1_0000_0000_0000_0000) as u64
}

/// The difference modulo `2^64`.
pub open spec fn sub64(x: u64, y: u64) -> u64 {
    ((x - y) % 0x1_0000_0000_0000_0000) as u64
}

/// The sum modulo `2^32`.
#[verifier::opaque]
pub open spec fn add32(x: u32, y: u32) -> u32 {
    ((x + y) % 0x1_0000_0000) as u32
}

/// Rotation to the right by `0 < n < 32` bits.
pub open spec fn rotr32(x: u32, n: u32) -> u32 {
    (x >> n) | (x << ((32 - n) as u32))
}

/// Rotation to the left by `n < 64` bits.
pub open spec fn rotl64(x: u64, n: u32) -> u64 {
    if n == 0 {
        x
    } else {
        (x << (n as u64)) | (x >> ((64 - n) as u64))
    }
}

/// Byte `j` of a word, the least significant first.
pub open spec fn byte_of(x: u64, j: int) -> u64 {
    (x >> ((8 * j) as u64)) & 0xff
}

/// The truth value as a word.
pub fn to_mask(b: bool) -> (r: u64)
    ensures
        r == mask(b),
{
    if b {
        0xffff_ffff_ffff_ffff
    } else {
        0
    }
}

/// The sum modulo `2^32`.
pub fn wrapping_add32(x: u32, y: u32) -> (r: u32)
    ensures
        r == add32(x, y),
{
    reveal(add32);
    x.wrapping_add(y)
}

/// Rotation to the left by `n < 64` bits.
pub fn rotate_left(x: u64, n: u32) -> (r: u64)
    requires
        n < 64,
    ensures
        r == rotl64(x, n),
{
    if n == 0 {
        x
    } else {
        (x << (n as u64)) | (x >> ((64 - n) as u64))
    }
}

/// Rotation to the right by `0 < n < 32` bits.
pub fn rotate_right32(x: u32, n: u32) -> (r: u32)
    requires
        0 < n < 32,
    ensures
        r == rotr32(x, n),
{
    (x >> n) | (x << ((32 - n) as u32))
}

/// Masks combine as the truth values they stand for.
pub broadcast proof fn lemma_mask_and(a: bool, b: bool)
    ensures
        #[trigger] (mask(a) & mask(b)) == mask(a && b),
{
    lemma_mask_bits();
}

/// The complement of a mask is the mask of the negation.
pub broadcast proof fn lemma_mask_not(a: bool)
    ensures
        #[trigger] (!mask(a)) == mask(!a),
{
    lemma_mask_bits();
}

proof fn lemma_mask_bits()
    by (bit_vector)
    ensures
        0xffff_ffff_ffff_ffffu64 & 0xffff_ffff_ffff_ffffu64 == 0xffff_ffff_ffff_ffffu64,
        forall|x: u64| #[trigger] (x & 0u64) == 0u64,
        forall|x: u64| #[trigger] (0u64 & x) == 0u64,
        !0u64 == 0xffff_ffff_ffff_ffffu64,
        !0xffff_ffff_ffff_ffffu64 == 0u64,
{
}

} // verus!
