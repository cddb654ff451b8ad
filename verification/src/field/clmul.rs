//! Carry-less multiplication of 64-bit words, and how it builds up the field product.
use super::gf128::{
    gf_mul, gf_mul_upto, lemma_gf_mul_comm, lemma_gf_mul_units, lemma_gf_mul_xor,
    lemma_gf_mul_xpow, lemma_xor128, lemma_xpow_one, lemma_xpow_sum, lemma_xpow_xor, xpow, xtime,
    POLY,
};
use vstd::prelude::*;

verus! {

/// The polynomial product of `a` with the part of `b` below degree `n`.
pub open spec fn clmul_upto(a: u64, b: u64, n: nat) -> u128
    decreases n,
{
    if n == 0 {
        0
    } else {
        clmul_upto(a, b, (n - 1) as nat) ^ (if (b >> ((n - 1) as u64)) & 1 == 1 {
            (a as u128) << ((n - 1) as u128)
        } else {
            0
        })
    }
}

/// The polynomial product over GF(2) of two 64-bit words.
pub open spec fn clmul(a: u64, b: u64) -> u128 {
    clmul_upto(a, b, 64)
}

/// The low 64 bits of a lane.
pub open spec fn lo64(a: u128) -> u64 {
    (a & 0xffff_ffff_ffff_ffff) as u64
}

/// The high 64 bits of a lane.
pub open spec fn hi64(a: u128) -> u64 {
    (a >> 64u128) as u64
}

/// The polynomial product over GF(2) of two 64-bit words.
pub fn clmul64(a: u64, b: u64) -> (r: u128)
    ensures
        r == clmul(a, b),
{
    let mut acc: u128 = 0;
    let mut i: u64 = 0;
    while i < 64
        invariant
            i <= 64,
            acc == clmul_upto(a, b, i as nat),
        decreases 64 - i,
    {
        if (b >> i) & 1 == 1 {
            acc = acc ^ ((a as u128) << (i as u128));
        } else {
            proof {
                lemma_xor128();
            }
        }
        i = i + 1;
    }
    acc
}

proof fn lemma_shift_bits(a: u64, b: u64, i: u128)
    by (bit_vector)
    requires
        i < 128,
    ensures
        (a as u128) << 0u128 == a as u128,
        i < 64 ==> xtime((a as u128) << i) == (a as u128) << ((i + 1) as u128),
        i < 64 ==> ((((b as u128) >> i) & 1 == 1) == ((b >> (i as u64)) & 1 == 1)),
        i >= 64 ==> ((b as u128) >> i) & 1 != 1,
        xtime(1u128 << 127u128) == POLY,
{
}

proof fn lemma_split_bits(t: u128)
    by (bit_vector)
    ensures
        t == (lo64(t) as u128) ^ ((hi64(t) as u128) << 64u128),
        t << 64u128 == (lo64(t) as u128) << 64u128,
{
}

proof fn lemma_xpow_shift(a: u64, i: nat)
    requires
        i <= 64,
    ensures
        xpow(a as u128, i) == (a as u128) << (i as u128),
    decreases i,
{
    if i > 0 {
        lemma_xpow_shift(a, (i - 1) as nat);
        lemma_shift_bits(a, 0, (i - 1) as u128);
    } else {
        lemma_shift_bits(a, 0, 0);
    }
}

proof fn lemma_clmul_upto(a: u64, b: u64, n: nat)
    requires
        n <= 128,
    ensures
        gf_mul_upto(a as u128, b as u128, n) == if n <= 64 {
            clmul_upto(a, b, n)
        } else {
            clmul(a, b)
        },
    decreases n,
{
    if n > 0 {
        let m = (n - 1) as nat;
        lemma_clmul_upto(a, b, m);
        lemma_shift_bits(a, b, m as u128);
        lemma_xor128();
        if m < 64 {
            lemma_xpow_shift(a, m);
        }
    }
}

/// The product of two polynomials below degree 64 needs no reduction.
pub proof fn lemma_clmul_is_gf_mul(a: u64, b: u64)
    ensures
        clmul(a, b) == gf_mul(a as u128, b as u128),
{
    lemma_clmul_upto(a, b, 128);
}

/// A lane is its low half plus `x^64` times its high half.
pub proof fn lemma_lane_halves(t: u128)
    ensures
        t == (lo64(t) as u128) ^ xpow(hi64(t) as u128, 64),
{
    lemma_split_bits(t);
    lemma_xpow_shift(hi64(t), 64);
}

/// One carry-less product reduces a shift by 64 degrees.
pub proof fn lemma_xpow64(t: u128)
    ensures
        xpow(t, 64) == (t << 64u128) ^ clmul(hi64(t), POLY as u64),
{
    lemma_lane_halves(t);
    lemma_split_bits(t);
    let lo = lo64(t);
    let hi = hi64(t);
    lemma_xpow_xor(lo as u128, xpow(hi as u128, 64), 64);
    lemma_xpow_shift(lo, 64);
    lemma_xpow_sum(hi as u128, 64, 64);
    // x^128 * hi = hi * POLY
    lemma_gf_mul_units(hi as u128);
    lemma_gf_mul_xpow(hi as u128, 1, 128);
    lemma_xpow_one(127);
    assert(xpow(1, 128) == xtime(xpow(1, 127)));
    lemma_shift_bits(0, 0, 0);
    lemma_clmul_is_gf_mul(hi, POLY as u64);
}

/// The schoolbook product of two lanes over their halves.
pub proof fn lemma_gf_mul_halves(x: u128, y: u128)
    ensures
        gf_mul(x, y) == clmul(lo64(x), lo64(y)) ^ xpow(
            clmul(lo64(x), hi64(y)) ^ clmul(hi64(x), lo64(y)),
            64,
        ) ^ xpow(clmul(hi64(x), hi64(y)), 128),
{
    let (xl, xh) = (lo64(x) as u128, hi64(x) as u128);
    let (yl, yh) = (lo64(y) as u128, hi64(y) as u128);
    lemma_lane_halves(x);
    lemma_lane_halves(y);
    lemma_clmul_is_gf_mul(lo64(x), lo64(y));
    lemma_clmul_is_gf_mul(lo64(x), hi64(y));
    lemma_clmul_is_gf_mul(hi64(x), lo64(y));
    lemma_clmul_is_gf_mul(hi64(x), hi64(y));
    let ys = xpow(yh, 64);
    let xs = xpow(xh, 64);
    lemma_gf_mul_xor(xl, xs, y);
    lemma_gf_mul_xor(xl, yl, ys);
    lemma_gf_mul_xor(xs, yl, ys);
    lemma_gf_mul_xpow(xl, yh, 64);
    lemma_gf_mul_xpow(xh, yl, 64);
    lemma_gf_mul_xpow(xh, ys, 64);
    lemma_gf_mul_xpow(xh, yh, 64);
    lemma_xpow_sum(gf_mul(xh, yh), 64, 64);
    lemma_xpow_xor(gf_mul(xl, yh), gf_mul(xh, yl), 64);
    lemma_xor128();
    assert(gf_mul(x, y) == gf_mul(xl, y) ^ gf_mul(xs, y));
    assert(gf_mul(xl, y) == gf_mul(xl, yl) ^ xpow(gf_mul(xl, yh), 64));
    assert(gf_mul(xs, y) == xpow(gf_mul(xh, yl), 64) ^ xpow(gf_mul(xh, yh), 128));
}

/// The product of the two sums of halves carries the cross terms beside the outer ones.
pub proof fn lemma_karatsuba(x: u128, y: u128)
    ensures
        clmul(lo64(x) ^ hi64(x), lo64(y) ^ hi64(y)) ^ clmul(lo64(x), lo64(y)) ^ clmul(
            hi64(x),
            hi64(y),
        ) == clmul(lo64(x), hi64(y)) ^ clmul(hi64(x), lo64(y)),
{
    let (a, b, c, d) = (lo64(x), hi64(x), lo64(y), hi64(y));
    lemma_clmul_is_gf_mul(a ^ b, c ^ d);
    lemma_clmul_is_gf_mul(a, c);
    lemma_clmul_is_gf_mul(a, d);
    lemma_clmul_is_gf_mul(b, c);
    lemma_clmul_is_gf_mul(b, d);
    assert((a ^ b) as u128 == (a as u128) ^ (b as u128));
    assert((c ^ d) as u128 == (c as u128) ^ (d as u128));
    lemma_gf_mul_xor(a as u128, b as u128, (c ^ d) as u128);
    lemma_gf_mul_xor(a as u128, c as u128, d as u128);
    lemma_gf_mul_xor(b as u128, c as u128, d as u128);
    lemma_xor128();
}

/// The square of a lane has no cross terms.
pub proof fn lemma_square_halves(x: u128)
    ensures
        gf_mul(x, x) == clmul(lo64(x), lo64(x)) ^ xpow(clmul(hi64(x), hi64(x)), 128),
{
    lemma_gf_mul_halves(x, x);
    lemma_clmul_is_gf_mul(lo64(x), hi64(x));
    lemma_clmul_is_gf_mul(hi64(x), lo64(x));
    lemma_gf_mul_comm(lo64(x) as u128, hi64(x) as u128);
    lemma_xor128();
    super::gf128::lemma_xpow_zero(64);
}

} // verus!
