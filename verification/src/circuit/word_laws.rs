//! Laws of the word operations, in numbers: shifts multiply and divide by powers of two, rotations
//! move the bits that a shift drops to the other end, and carry and borrow are what a sum and a
//! difference leave behind.
use super::builder::{binary_value, ternary_value, unary_value, BinaryOp, TernaryOp, UnaryOp};
use super::word::{byte_of, is_true, rotl64, rotr32};
use crate::constraint_system::{shifted_word, ShiftVariant};
use vstd::arithmetic::power2::{lemma2_to64, lemma2_to64_rest, lemma_pow2_adds, lemma_pow2_pos, pow2};
use vstd::prelude::*;

verus! {

proof fn lemma_split_bits(x: u64, n: u64, m: u64)
    by (bit_vector)
    requires
        0 < n < 64,
        m == 64 - n,
    ensures
        (x << n) | (x >> m) == (x << n) + (x >> m),
        ((x << n) >> n) << n == x << n,
        x == ((x >> m) << m) + ((x << n) >> n),
        (x >> n) | (0xffff_ffff_ffff_ffffu64 << m) == (x >> n) + (0xffff_ffff_ffff_ffffu64 << m),
        x >> 63u64 == 1u64 <==> x >= 0x8000_0000_0000_0000u64,
        x | 0u64 == x,
        x >> 0u64 == x,
{
}

proof fn lemma_split_bits32(x: u32, n: u32, m: u32)
    by (bit_vector)
    requires
        0 < n < 32,
        m == 32 - n,
    ensures
        (x >> n) | (x << m) == (x >> n) + (x << m),
        ((x << m) >> m) << m == x << m,
        x == ((x >> n) << n) + ((x << m) >> m),
{
}

/// A word split at bit `m`: `q` above and `low` below.
proof fn lemma_split(x: u64, n: u64, m: u64)
    requires
        0 < n < 64,
        m == 64 - n,
    ensures
        x >> m == x as int / pow2(m as nat) as int,
        x << n == (x as int % pow2(m as nat) as int) * pow2(n as nat),
{
    lemma_split_bits(x, n, m);
    lemma_pow2_pos(m as nat);
    lemma_pow2_pos(n as nat);
    lemma_pow2_adds(m as nat, n as nat);
    lemma2_to64_rest();
    let (p, q) = (pow2(m as nat) as int, pow2(n as nat) as int);
    assert(p * q == 0x1_0000_0000_0000_0000);
    vstd::bits::lemma_u64_shr_is_div(x, m);
    let high = (x >> m) as int;
    let low = ((x << n) >> n) as int;
    vstd::bits::lemma_u64_shr_is_div(x << n, n);
    assert(low < p) by (nonlinear_arith)
        requires
            low == (x << n) as int / q,
            (x << n) < p * q,
            q > 0,
    ;
    assert(high * p <= x as int) by (nonlinear_arith)
        requires
            high == x as int / p,
            p > 0,
    ;
    vstd::bits::lemma_u64_shl_is_mul(x >> m, m);
    assert(low * q <= u64::MAX) by (nonlinear_arith)
        requires
            low == (x << n) as int / q,
            (x << n) <= u64::MAX,
            q > 0,
    ;
    vstd::bits::lemma_u64_shl_is_mul((x << n) >> n, n);
    vstd::arithmetic::div_mod::lemma_fundamental_div_mod_converse(x as int, p, high, low);
}

/// A shift to the left multiplies modulo `2^64`, a shift to the right divides.
pub proof fn lemma_shift_gates(x: u64, n: u32)
    requires
        n < 64,
    ensures
        unary_value(UnaryOp::Shl(n), x) == (x * pow2(n as nat)) % 0x1_0000_0000_0000_0000,
        unary_value(UnaryOp::Shr(n), x) == x as int / pow2(n as nat) as int,
        shifted_word(x, ShiftVariant::Sll, n as int) == (x * pow2(n as nat))
            % 0x1_0000_0000_0000_0000,
        shifted_word(x, ShiftVariant::Slr, n as int) == x as int / pow2(n as nat) as int,
{
    vstd::bits::lemma_u64_shr_is_div(x, n as u64);
    if n == 0 {
        lemma2_to64();
        assert(x << 0u64 == x) by {
            vstd::bits::lemma_u64_shl_is_mul(x, 0);
        }
    } else {
        let m = (64 - n) as u64;
        lemma_split(x, n as u64, m);
        lemma_pow2_pos(m as nat);
        lemma_pow2_pos(n as nat);
        lemma_pow2_adds(m as nat, n as nat);
        lemma2_to64_rest();
        let (p, q) = (pow2(m as nat) as int, pow2(n as nat) as int);
        let (high, low) = (x as int / p, x as int % p);
        vstd::arithmetic::div_mod::lemma_fundamental_div_mod(x as int, p);
        assert(x * q == high * 0x1_0000_0000_0000_0000 + low * q) by (nonlinear_arith)
            requires
                x as int == p * high + low,
                p * q == 0x1_0000_0000_0000_0000,
        ;
        vstd::arithmetic::div_mod::lemma_fundamental_div_mod_converse(
            x * q,
            0x1_0000_0000_0000_0000,
            high,
            low * q,
        );
    }
}

/// A rotation to the left by `n` multiplies the low bits by `2^n` and puts the high `n` bits below
/// them; one to the right by `n` is one to the left by the rest.
pub proof fn lemma_rotation_gates(x: u64, n: u32)
    requires
        0 < n < 64,
    ensures
        rotl64(x, n) == (x as int % pow2((64 - n) as nat) as int) * pow2(n as nat) + x as int / pow2(
            (64 - n) as nat,
        ) as int,
        unary_value(UnaryOp::Rotl(n), x) == rotl64(x, n),
        shifted_word(x, ShiftVariant::Rotr, n as int) == rotl64(x, (64 - n) as u32),
        shifted_word(x, ShiftVariant::Rotr, n as int) == (x as int % pow2(n as nat) as int) * pow2(
            (64 - n) as nat,
        ) + x as int / pow2(n as nat) as int,
{
    lemma_split_bits(x, n as u64, (64 - n) as u64);
    lemma_split(x, n as u64, (64 - n) as u64);
    lemma_split_bits(x, (64 - n) as u64, n as u64);
    lemma_split(x, (64 - n) as u64, n as u64);
}

/// An arithmetic shift to the right divides the signed value of the word, rounding down.
pub proof fn lemma_arithmetic_shift(x: u64, n: int)
    requires
        0 <= n < 64,
    ensures
        signed(shifted_word(x, ShiftVariant::Sar, n)) == signed(x) / pow2(n as nat) as int,
{
    vstd::bits::lemma_u64_shr_is_div(x, n as u64);
    lemma2_to64();
    lemma2_to64_rest();
    lemma_pow2_pos(n as nat);
    let q = pow2(n as nat) as int;
    if n == 0 {
        lemma_split_bits(x, 1, 63);
        assert(shifted_word(x, ShiftVariant::Sar, n) == x);
    } else {
        let m = (64 - n) as u64;
        let ones = 0xffff_ffff_ffff_ffffu64;
        lemma_split_bits(x, n as u64, m);
        lemma_pow2_adds(m as nat, n as nat);
        lemma_pow2_pos(m as nat);
        let p = pow2(m as nat) as int;
        let big = 0x1_0000_0000_0000_0000int;
        assert(p * q == big);
        lemma_shift_gates(ones, m as u32);
        assert((ones * p) % big == big - p) by {
            assert(ones * p == (p - 1) * big + (big - p)) by (nonlinear_arith)
                requires
                    ones == big - 1,
            ;
            assert(p <= big) by (nonlinear_arith)
                requires
                    p * q == big,
                    p > 0,
                    q > 0,
            ;
            vstd::arithmetic::div_mod::lemma_fundamental_div_mod_converse(
                ones * p,
                big,
                p - 1,
                big - p,
            );
        }
        let y = shifted_word(x, ShiftVariant::Sar, n);
        let d = x as int / q;
        vstd::arithmetic::div_mod::lemma_fundamental_div_mod(x as int, q);
        lemma_half_bound(p, q, n);
        assert(d < p) by (nonlinear_arith)
            requires
                x as int == q * d + x as int % q,
                0 <= x as int % q,
                x < p * q,
                q > 0,
        ;
        if x >= 0x8000_0000_0000_0000 {
            assert(y == d + (big - p));
            assert((x - big) == (d - p) * q + x as int % q) by (nonlinear_arith)
                requires
                    x as int == q * d + x as int % q,
                    p * q == big,
            ;
            vstd::arithmetic::div_mod::lemma_fundamental_div_mod_converse(
                x - big,
                q,
                d - p,
                x as int % q,
            );
            assert(signed(y) == d - p);
        } else {
            lemma_split_bits(x >> (n as u64), 1, 63);
            assert(y == d);
            assert(x >> 63u64 != 1u64);
            assert(d <= x as int) by (nonlinear_arith)
                requires
                    d == x as int / q,
                    q > 0,
            ;
        }
    }
}

proof fn lemma_half_bound(p: int, q: int, n: int)
    requires
        0 < n < 64,
        p == pow2((64 - n) as nat),
        q == pow2(n as nat),
    ensures
        p % 2 == 0,
        p <= 0x8000_0000_0000_0000,
{
    vstd::arithmetic::power2::lemma_pow2_unfold((64 - n) as nat);
    lemma2_to64_rest();
    if n > 1 {
        vstd::arithmetic::power2::lemma_pow2_strictly_increases((64 - n) as nat, 63);
    }
}

/// The value of a word in two's complement.
pub open spec fn signed(x: u64) -> int {
    if x >= 0x8000_0000_0000_0000 {
        x - 0x1_0000_0000_0000_0000
    } else {
        x as int
    }
}

/// Byte `j` is digit `j` of the word in base 256.
pub proof fn lemma_byte_gate(x: u64, j: u32)
    requires
        j < 8,
    ensures
        byte_of(x, j as int) == (x as int / pow2((8 * j) as nat) as int) % 256,
        unary_value(UnaryOp::Byte(j), x) == byte_of(x, j as int),
{
    lemma2_to64();
    let y = x >> ((8 * j) as u64);
    vstd::bits::lemma_u64_shr_is_div(x, (8 * j) as u64);
    vstd::bits::lemma_u64_low_bits_mask_is_mod(y, 8);
    vstd::bits::lemma_low_bits_mask_values();
    assert(vstd::bits::low_bits_mask(8) == 0xff);
}

/// A rotation of a 32-bit word to the right by `n` drops the low `n` bits and puts them on top.
pub proof fn lemma_rotr32_gate(x: u32, n: u32)
    requires
        0 < n < 32,
    ensures
        rotr32(x, n) == x as int / pow2(n as nat) as int + (x as int % pow2(n as nat) as int) * pow2(
            (32 - n) as nat,
        ),
{
    let m = (32 - n) as u32;
    lemma_split_bits32(x, n, m);
    lemma_pow2_pos(m as nat);
    lemma_pow2_pos(n as nat);
    lemma_pow2_adds(m as nat, n as nat);
    lemma2_to64();
    let (p, q) = (pow2(n as nat) as int, pow2(m as nat) as int);
    assert(p * q == 0x1_0000_0000) by (nonlinear_arith)
        requires
            q * p == 0x1_0000_0000,
    ;
    vstd::bits::lemma_u32_shr_is_div(x, n);
    let high = (x >> n) as int;
    let low = ((x << m) >> m) as int;
    vstd::bits::lemma_u32_shr_is_div(x << m, m);
    assert(low < p) by (nonlinear_arith)
        requires
            low == (x << m) as int / q,
            (x << m) < p * q,
            q > 0,
    ;
    assert(high * p <= x as int) by (nonlinear_arith)
        requires
            high == x as int / p,
            p > 0,
    ;
    vstd::bits::lemma_u32_shl_is_mul(x >> n, n);
    assert(low * q <= u32::MAX) by (nonlinear_arith)
        requires
            low == (x << m) as int / q,
            (x << m) <= u32::MAX,
            q > 0,
    ;
    vstd::bits::lemma_u32_shl_is_mul((x << m) >> m, m);
    vstd::arithmetic::div_mod::lemma_fundamental_div_mod_converse(x as int, p, high, low);
}

/// A sum is the word that comes out plus `2^64` where there is a carry.
pub proof fn lemma_sum_and_carry(x: u64, y: u64)
    ensures
        x + y == binary_value(BinaryOp::Add, x, y) + (if is_true(
            binary_value(BinaryOp::Carry, x, y),
        ) {
            0x1_0000_0000_0000_0000int
        } else {
            0
        }),
{
}

/// A difference less the borrow that comes in is the word that comes out, less `2^64` where there is
/// a borrow going out.
pub proof fn lemma_difference_and_borrow(x: u64, y: u64, b: u64)
    ensures
        x - y - (if is_true(b) {
            1int
        } else {
            0
        }) == ternary_value(TernaryOp::Sub, x, y, b) - (if is_true(
            ternary_value(TernaryOp::Borrow, x, y, b),
        ) {
            0x1_0000_0000_0000_0000int
        } else {
            0
        }),
{
}

/// The comparisons are those of the numbers, and agree with the borrow of a difference.
pub proof fn lemma_comparison_gates(x: u64, y: u64)
    ensures
        is_true(binary_value(BinaryOp::Ult, x, y)) == (x < y),
        is_true(binary_value(BinaryOp::Ule, x, y)) == !(y < x),
        is_true(binary_value(BinaryOp::Eq, x, y)) == (!(x < y) && !(y < x)),
        is_true(binary_value(BinaryOp::Ne, x, y)) == (x < y || y < x),
        ternary_value(TernaryOp::Borrow, x, y, 0) == binary_value(BinaryOp::Ult, x, y),
{
}

} // verus!
