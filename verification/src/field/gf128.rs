//! The mathematical model of GF(2^128) with the reduction polynomial
//! `x^128 + x^7 + x^2 + x + 1`.
//!
//! An element is the `u128` whose bit `i` is the coefficient of `x^i`. Addition is XOR; the
//! product is the XOR of the shifted copies of one factor selected by the bits of the other,
//! where a shift by one degree is reduced at once.
use vstd::prelude::*;

verus! {

/// The reduction of `x^128`: `x^7 + x^2 + x + 1`.
pub const POLY: u128 = 0x87;

/// Whether the coefficient of `x^i` is set.
pub open spec fn bit128(a: u128, i: nat) -> bool {
    (a >> (i as u128)) & 1 == 1
}

/// `x * a` in the field.
pub open spec fn xtime(a: u128) -> u128 {
    (a << 1u128) ^ (if a >> 127u128 == 1 {
        POLY
    } else {
        0
    })
}

/// `x^n * a` in the field.
pub open spec fn xpow(a: u128, n: nat) -> u128
    decreases n,
{
    if n == 0 {
        a
    } else {
        xtime(xpow(a, (n - 1) as nat))
    }
}

/// The product of `a` with the part of `b` below degree `n`.
pub open spec fn gf_mul_upto(a: u128, b: u128, n: nat) -> u128
    decreases n,
{
    if n == 0 {
        0
    } else {
        gf_mul_upto(a, b, (n - 1) as nat) ^ (if bit128(b, (n - 1) as nat) {
            xpow(a, (n - 1) as nat)
        } else {
            0
        })
    }
}

/// The field product.
pub open spec fn gf_mul(a: u128, b: u128) -> u128 {
    gf_mul_upto(a, b, 128)
}

/// `a^n` in the field.
pub open spec fn gf_pow(a: u128, n: nat) -> u128
    decreases n,
{
    if n == 0 {
        1
    } else {
        gf_mul(gf_pow(a, (n - 1) as nat), a)
    }
}

/// Facts on XOR and shifts of 128-bit words.
pub proof fn lemma_xor128()
    by (bit_vector)
    ensures
        forall|a: u128| #[trigger] (a ^ 0u128) == a,
        forall|a: u128| #[trigger] (0u128 ^ a) == a,
        forall|a: u128| #[trigger] (a ^ a) == 0u128,
        forall|a: u128, b: u128| #[trigger] (a ^ b) == b ^ a,
        forall|a: u128, b: u128, c: u128| #[trigger] ((a ^ b) ^ c) == a ^ (b ^ c),
        forall|a: u128, b: u128| #[trigger] (a ^ (a ^ b)) == b,
        forall|a: u128, b: u128, c: u128| #[trigger] (a ^ (b ^ c)) == b ^ (a ^ c),
{
}

proof fn lemma_xtime_bits(a: u128, b: u128, i: u128)
    by (bit_vector)
    requires
        i < 128,
    ensures
        xtime(a ^ b) == xtime(a) ^ xtime(b),
        xtime(0) == 0,
        (((a ^ b) >> i) & 1 == 1) == (((a >> i) & 1 == 1) != ((b >> i) & 1 == 1)),
        i < 127 ==> xtime(1u128 << i) == 1u128 << ((i + 1) as u128),
        1u128 << 0u128 == 1,
{
}

proof fn lemma_mask_bits(a: u128, i: u128, j: u128)
    by (bit_vector)
    requires
        i < 128,
        j < 128,
    ensures
        (((1u128 << i) >> j) & 1 == 1) == (i == j),
        i < 127 ==> a & ((1u128 << ((i + 1) as u128)) - 1) as u128 == (a & ((1u128 << i) - 1) as u128)
            ^ (if (a >> i) & 1 == 1 {
            1u128 << i
        } else {
            0
        }),
        a == (a & ((1u128 << 127u128) - 1) as u128) ^ (if (a >> 127u128) & 1 == 1 {
            1u128 << 127u128
        } else {
            0
        }),
        a & ((1u128 << 0u128) - 1) as u128 == 0,
{
}

/// The part of `a` below degree `n`.
pub open spec fn low_part(a: u128, n: nat) -> u128 {
    if n >= 128 {
        a
    } else {
        a & ((1u128 << (n as u128)) - 1) as u128
    }
}

pub(crate) proof fn lemma_low_part_step(a: u128, n: nat)
    requires
        n < 128,
    ensures
        low_part(a, 0) == 0,
        low_part(a, n + 1) == low_part(a, n) ^ (if bit128(a, n) {
            1u128 << (n as u128)
        } else {
            0
        }),
{
    lemma_mask_bits(a, n as u128, 0);
}

/// Multiplying by `x^n` is additive.
pub proof fn lemma_xpow_xor(a: u128, b: u128, n: nat)
    ensures
        xpow(a ^ b, n) == xpow(a, n) ^ xpow(b, n),
    decreases n,
{
    if n > 0 {
        lemma_xpow_xor(a, b, (n - 1) as nat);
        lemma_xtime_bits(xpow(a, (n - 1) as nat), xpow(b, (n - 1) as nat), 0);
    }
}

/// Multiplying zero by `x^n` gives zero.
pub proof fn lemma_xpow_zero(n: nat)
    ensures
        xpow(0, n) == 0,
    decreases n,
{
    if n > 0 {
        lemma_xpow_zero((n - 1) as nat);
        lemma_xtime_bits(0, 0, 0);
    }
}

/// `x^m * (x^n * a) = x^(m+n) * a`.
pub proof fn lemma_xpow_sum(a: u128, m: nat, n: nat)
    ensures
        xpow(xpow(a, n), m) == xpow(a, m + n),
    decreases m,
{
    if m > 0 {
        lemma_xpow_sum(a, (m - 1) as nat, n);
    }
}

/// Below degree 128 the monomial `x^n` is the word with bit `n` set.
pub proof fn lemma_xpow_one(n: nat)
    requires
        n < 128,
    ensures
        xpow(1, n) == 1u128 << (n as u128),
    decreases n,
{
    if n > 0 {
        lemma_xpow_one((n - 1) as nat);
        lemma_xtime_bits(0, 0, (n - 1) as u128);
    } else {
        lemma_xtime_bits(0, 0, 0);
    }
}

proof fn lemma_mul_upto_left(a: u128, b: u128, c: u128, n: nat)
    ensures
        gf_mul_upto(a ^ b, c, n) == gf_mul_upto(a, c, n) ^ gf_mul_upto(b, c, n),
    decreases n,
{
    lemma_xor128();
    if n > 0 {
        lemma_mul_upto_left(a, b, c, (n - 1) as nat);
        lemma_xpow_xor(a, b, (n - 1) as nat);
    }
}

proof fn lemma_mul_upto_right(a: u128, b: u128, c: u128, n: nat)
    requires
        n <= 128,
    ensures
        gf_mul_upto(a, b ^ c, n) == gf_mul_upto(a, b, n) ^ gf_mul_upto(a, c, n),
    decreases n,
{
    lemma_xor128();
    if n > 0 {
        lemma_mul_upto_right(a, b, c, (n - 1) as nat);
        lemma_xtime_bits(b, c, (n - 1) as u128);
    }
}

pub(crate) proof fn lemma_mul_upto_monomial(a: u128, i: nat, n: nat)
    requires
        i < 128,
        n <= 128,
    ensures
        gf_mul_upto(a, 1u128 << (i as u128), n) == if n <= i {
            0
        } else {
            xpow(a, i)
        },
    decreases n,
{
    lemma_xor128();
    if n > 0 {
        lemma_mul_upto_monomial(a, i, (n - 1) as nat);
        lemma_mask_bits(0, i as u128, (n - 1) as u128);
    }
}

proof fn lemma_mul_upto_xpow(a: u128, b: u128, k: nat, n: nat)
    ensures
        gf_mul_upto(xpow(a, k), b, n) == xpow(gf_mul_upto(a, b, n), k),
    decreases n,
{
    lemma_xor128();
    if n == 0 {
        lemma_xpow_zero(k);
    } else {
        let m = (n - 1) as nat;
        lemma_mul_upto_xpow(a, b, k, m);
        lemma_xpow_zero(k);
        lemma_xpow_sum(a, m, k);
        lemma_xpow_sum(a, k, m);
        lemma_xpow_xor(
            gf_mul_upto(a, b, m),
            if bit128(b, m) {
                xpow(a, m)
            } else {
                0
            },
            k,
        );
    }
}

proof fn lemma_mul_upto_one(b: u128, n: nat)
    requires
        n <= 128,
    ensures
        gf_mul_upto(1, b, n) == low_part(b, n),
    decreases n,
{
    lemma_xor128();
    lemma_low_part_step(b, 0);
    if n > 0 {
        lemma_mul_upto_one(b, (n - 1) as nat);
        lemma_low_part_step(b, (n - 1) as nat);
        lemma_xpow_one((n - 1) as nat);
    }
}

proof fn lemma_mul_zero_left(b: u128, n: nat)
    ensures
        gf_mul_upto(0, b, n) == 0,
    decreases n,
{
    lemma_xor128();
    if n > 0 {
        lemma_mul_zero_left(b, (n - 1) as nat);
        lemma_xpow_zero((n - 1) as nat);
    }
}

proof fn lemma_mul_low_part(a: u128, b: u128, n: nat)
    requires
        n <= 128,
    ensures
        gf_mul(low_part(a, n), b) == gf_mul_upto(b, a, n),
    decreases n,
{
    lemma_xor128();
    lemma_low_part_step(a, 0);
    lemma_mul_zero_left(b, 128);
    if n > 0 {
        let m = (n - 1) as nat;
        lemma_mul_low_part(a, b, m);
        lemma_low_part_step(a, m);
        let t = if bit128(a, m) {
            1u128 << (m as u128)
        } else {
            0
        };
        lemma_mul_upto_left(low_part(a, m), t, b, 128);
        lemma_xpow_one(m);
        lemma_mul_upto_xpow(1, b, m, 128);
        lemma_mul_upto_one(b, 128);
    }
}

/// The field product commutes.
pub proof fn lemma_gf_mul_comm(a: u128, b: u128)
    ensures
        gf_mul(a, b) == gf_mul(b, a),
{
    lemma_mul_low_part(a, b, 128);
}

/// The field product distributes over XOR, in either argument.
pub proof fn lemma_gf_mul_xor(a: u128, b: u128, c: u128)
    ensures
        gf_mul(a ^ b, c) == gf_mul(a, c) ^ gf_mul(b, c),
        gf_mul(a, b ^ c) == gf_mul(a, b) ^ gf_mul(a, c),
{
    lemma_mul_upto_left(a, b, c, 128);
    lemma_mul_upto_right(a, b, c, 128);
}

/// Zero annihilates and one is neutral.
pub proof fn lemma_gf_mul_units(a: u128)
    ensures
        gf_mul(0, a) == 0,
        gf_mul(a, 0) == 0,
        gf_mul(1, a) == a,
        gf_mul(a, 1) == a,
{
    lemma_mul_zero_left(a, 128);
    lemma_gf_mul_comm(0, a);
    lemma_mul_upto_one(a, 128);
    lemma_gf_mul_comm(1, a);
}

/// A power of `x` moves out of the first factor.
pub proof fn lemma_gf_mul_xpow(a: u128, b: u128, k: nat)
    ensures
        gf_mul(xpow(a, k), b) == xpow(gf_mul(a, b), k),
        gf_mul(a, xpow(b, k)) == xpow(gf_mul(a, b), k),
{
    lemma_mul_upto_xpow(a, b, k, 128);
    lemma_mul_upto_xpow(b, a, k, 128);
    lemma_gf_mul_comm(a, b);
    lemma_gf_mul_comm(a, xpow(b, k));
}

proof fn lemma_mul_assoc_upto(a: u128, b: u128, c: u128, n: nat)
    requires
        n <= 128,
    ensures
        gf_mul(a, gf_mul_upto(b, c, n)) == gf_mul_upto(gf_mul(a, b), c, n),
    decreases n,
{
    lemma_xor128();
    lemma_gf_mul_units(a);
    if n > 0 {
        let m = (n - 1) as nat;
        lemma_mul_assoc_upto(a, b, c, m);
        let t = if bit128(c, m) {
            xpow(b, m)
        } else {
            0
        };
        lemma_gf_mul_xor(a, gf_mul_upto(b, c, m), t);
        lemma_gf_mul_xpow(a, b, m);
    }
}

/// The field product associates.
pub proof fn lemma_gf_mul_assoc(a: u128, b: u128, c: u128)
    ensures
        gf_mul(gf_mul(a, b), c) == gf_mul(a, gf_mul(b, c)),
{
    lemma_mul_assoc_upto(a, b, c, 128);
}

} // verus!
