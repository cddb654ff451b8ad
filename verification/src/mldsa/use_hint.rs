//! `HighBits` and `UseHint` of ML-DSA-44.
use super::hint::{assert_mldsa44_h_bits_and_weight, hint_weight_ok};
use super::mldsa44;
use super::util::{isub_one, ix, mul_const_no_overflow};
use crate::circuit::word::{is_true, lemma_mask_and, mask};
use crate::circuit::{lemma_vals_kept, CircuitBuilder, Wire};
use vstd::prelude::*;

verus! {

/// The quotient of `r` by `2 gamma2`, rounded to the nearest integer, halves down.
pub open spec fn rounded_quotient(r: u64) -> int {
    r / 190464 + (if r % 190464 > 95232 {
        1int
    } else {
        0
    })
}

/// `HighBits(r)`: the rounded quotient, with the top class folded to zero.
pub open spec fn high_bits_of(r: u64) -> int {
    if rounded_quotient(r) > 43 {
        0
    } else {
        rounded_quotient(r)
    }
}

/// Whether the centered remainder of `r` by `2 gamma2` is positive.
pub open spec fn low_bits_positive(r: u64) -> bool {
    0 < r % 190464 <= 95232
}

/// `UseHint(h, r)`.
pub open spec fn use_hint_of(h: bool, r: u64) -> int {
    let r1 = high_bits_of(r);
    if !h {
        r1
    } else if low_bits_positive(r) {
        (r1 + 1) % 44
    } else {
        (r1 + 43) % 44
    }
}

/// The high and low bits decompose `r`: `r = r1 * 2 gamma2 + r0` with `-gamma2 < r0 <= gamma2`, or
/// `r` lies in the top class and `r - (q - 1) = r0 + 1`.
pub proof fn lemma_high_bits_decompose(r: u64) -> (r0: int)
    requires
        0 <= r < 8380417,
    ensures
        0 <= high_bits_of(r) <= 43,
        -95232 <= r0 <= 95232,
        r == high_bits_of(r) * 190464 + r0 || (high_bits_of(r) == 0 && r - 8380416 == r0 + 1),
        low_bits_positive(r) == (r0 > 0),
{
    if rounded_quotient(r) > 43 {
        r - 8380416 - 1
    } else {
        r - high_bits_of(r) * 190464
    }
}

/// A hint recovers the high bits of a sum: where `z` moves `r` by at most `gamma2` modulo `q`, the
/// hint that says whether the high bits change leads from `r` to the high bits of the sum.
pub proof fn lemma_hint_recovers_high_bits(r: u64, z: int, moved: u64)
    requires
        0 <= r < 8380417,
        -95232 <= z <= 95232,
        moved == (r + z) % 8380417,
    ensures
        use_hint_of(high_bits_of(r) != high_bits_of(moved), r) == high_bits_of(moved),
        high_bits_of(r) != high_bits_of(moved) ==> use_hint_of(false, r) != high_bits_of(moved),
{
    let q = 8380417int;
    let m = moved as int;
    assert(m == r + z || m == r + z - q || m == r + z + q);
    let (a, s) = (r as int / 190464, r as int % 190464);
    let (b, t) = (m / 190464, m % 190464);
    assert(r == 190464 * a + s && m == 190464 * b + t);
    assert(0 <= a <= 44 && 0 <= b <= 44);
}

proof fn lemma_barrett(r: u64)
    requires
        0 <= r < 8380417,
    ensures
        ((((r + 127) / 128) * 11275 + 0x80_0000) / 0x100_0000) == rounded_quotient(r),
        (r + 127) / 128 * 11275 <= 0xffff_ffff_ffff,
{
    let q = r / 190464;
    let s = r % 190464;
    let u = (s + 127) / 128;
    assert(r == 190464 * q + s);
    assert((r + 127) / 128 == 1488 * q + u);
    assert(0 <= q <= 44);
    assert(0 <= u <= 1488);
    let v = 11275 * u - 16 * q + 0x80_0000;
    assert((1488 * q + u) * 11275 + 0x80_0000 == 0x100_0000 * q + v);
    assert((u >= 745) == (s > 95232));
    assert((0x100_0000 * q + v) / 0x100_0000 == q + v / 0x100_0000);
}

proof fn lemma_shr_bits(x: u64, h: u64)
    by (bit_vector)
    ensures
        x >> 7u64 == x / 128,
        x >> 24u64 == x / 0x100_0000,
        (h << 63u64 >= 0x8000_0000_0000_0000u64) == (h & 1 == 1),
        h <= 1 ==> ((h & 1 == 1) == (h == 1)),
{
}

/// Computes `HighBits(r)`, and asserts `r < q`.
pub fn mldsa44_high_bits(builder: &mut CircuitBuilder, r: Wire) -> (res: Wire)
    requires
        old(builder).wf(),
        old(builder).has(r),
    ensures
        final(builder).extends(*old(builder)),
        final(builder).has(res),
        forall|w: Seq<u64>|
            #[trigger] final(builder).accepts(w) == (old(builder).accepts(w) && old(builder).val(
                w,
                r,
            ) < mldsa44::Q),
        forall|w: Seq<u64>|
            #![trigger final(builder).val(w, res)]
            old(builder).val(w, r) < mldsa44::Q ==> final(builder).val(w, res) == high_bits_of(
                old(builder).val(w, r),
            ),
{
    let ghost b0 = *builder;
    let q_minus_one = builder.add_constant_64(mldsa44::Q - 1);
    let in_range = builder.icmp_ule(r, q_minus_one);
    builder.assert_true(in_range);
    let ghost b1 = *builder;
    let c127 = builder.add_constant_64(127);
    let (r_plus_127, _carry) = builder.iadd(r, c127);
    let t1 = builder.shr(r_plus_127, 7);
    let ghost b2 = *builder;
    let t2 = mul_const_no_overflow(builder, t1, 11_275);
    let ghost b3 = *builder;
    let half = builder.add_constant_64(0x80_0000);
    let (t2_half, _carry) = builder.iadd(t2, half);
    let t3 = builder.shr(t2_half, 24);
    let max = builder.add_constant_64(mldsa44::W1_COEFF_MAX);
    let over_max = builder.icmp_ugt(t3, max);
    let zero = builder.add_constant_64(0);
    let res = builder.select(over_max, zero, t3);
    proof {
        assert forall|w: Seq<u64>|
            #![trigger builder.val(w, res)]
            b0.val(w, r) < mldsa44::Q implies builder.val(w, res) == high_bits_of(
            b0.val(w, r),
        ) by {
            let v = b0.val(w, r);
            lemma_barrett(v);
            assert(b2.val(w, r_plus_127) == v + 127);
            lemma_shr_bits(b2.val(w, r_plus_127), 0);
            assert(b2.val(w, t1) == (v + 127) / 128);
            assert(b3.val(w, t2) == (v + 127) / 128 * 11275);
            assert(builder.val(w, t2_half) == (v + 127) / 128 * 11275 + 0x80_0000);
            lemma_shr_bits(builder.val(w, t2_half), 0);
            assert(builder.val(w, t3) == rounded_quotient(v));
        }
    }
    res
}

/// Whether the centered remainder of `r` is positive, where `r1 = HighBits(r)`.
fn mldsa44_r0_is_positive(builder: &mut CircuitBuilder, r: Wire, r1: Wire) -> (res: Wire)
    requires
        old(builder).wf(),
        old(builder).has(r),
        old(builder).has(r1),
    ensures
        final(builder).computes_on(*old(builder)),
        final(builder).has(res),
        forall|w: Seq<u64>|
            #![trigger final(builder).val(w, res)]
            old(builder).val(w, r) < mldsa44::Q && old(builder).val(w, r1) == high_bits_of(
                old(builder).val(w, r),
            ) ==> final(builder).val(w, res) == mask(
                low_bits_positive(old(builder).val(w, r)),
            ),
{
    broadcast use lemma_mask_and;

    let ghost b0 = *builder;
    let r1_alpha = mul_const_no_overflow(builder, r1, mldsa44::TWO_GAMMA2);
    let ghost b1 = *builder;
    let zero = builder.add_constant_64(0);
    let (diff, _borrow) = builder.isub_bin_bout(r, r1_alpha, zero);
    let no_borrow = builder.icmp_ule(r1_alpha, r);
    let diff_nonzero = builder.icmp_ne(diff, zero);
    let half = builder.add_constant_64((mldsa44::Q - 1) / 2);
    let diff_lte_half = builder.icmp_ule(diff, half);
    let both = builder.band(no_borrow, diff_nonzero);
    let res = builder.band(both, diff_lte_half);
    proof {
        assert forall|w: Seq<u64>|
            #![trigger builder.val(w, res)]
            b0.val(w, r) < mldsa44::Q && b0.val(w, r1) == high_bits_of(
                b0.val(w, r),
            ) implies builder.val(w, res) == mask(low_bits_positive(b0.val(w, r))) by {
            let v = b0.val(w, r);
            let r0 = lemma_high_bits_decompose(v);
            let a = high_bits_of(v) * 190464;
            assert(b1.val(w, r1_alpha) == a);
            assert(builder.val(w, diff) == (v - a) % 0x1_0000_0000_0000_0000);
        }
    }
    res
}

/// Computes `UseHint(h, r)` for one coefficient, and asserts that `h` is a bit and `r < q`.
pub fn mldsa44_use_hint_coeff(builder: &mut CircuitBuilder, h: Wire, r: Wire) -> (res: Wire)
    requires
        old(builder).wf(),
        old(builder).has(h),
        old(builder).has(r),
    ensures
        final(builder).extends(*old(builder)),
        final(builder).has(res),
        forall|w: Seq<u64>|
            #[trigger] final(builder).accepts(w) == (old(builder).accepts(w) && old(builder).val(
                w,
                h,
            ) <= 1 && old(builder).val(w, r) < mldsa44::Q),
        forall|w: Seq<u64>|
            #![trigger final(builder).val(w, res)]
            old(builder).val(w, h) <= 1 && old(builder).val(w, r) < mldsa44::Q
                ==> final(builder).val(w, res) == use_hint_of(
                old(builder).val(w, h) == 1,
                old(builder).val(w, r),
            ),
{
    let ghost b0 = *builder;
    let one = builder.add_constant_64(1);
    let is_bit = builder.icmp_ule(h, one);
    builder.assert_true(is_bit);
    let res = mldsa44_use_hint_coeff_checked(builder, h, r);
    proof {
        assert forall|w: Seq<u64>|
            #![trigger builder.val(w, res)]
            b0.val(w, h) <= 1 && b0.val(w, r) < mldsa44::Q implies builder.val(w, res)
            == use_hint_of(b0.val(w, h) == 1, b0.val(w, r)) by {
            lemma_shr_bits(0, b0.val(w, h));
        }
    }
    res
}

/// Computes `UseHint(h, r)` for one coefficient with the lowest bit of `h`, and asserts `r < q`.
pub(crate) fn mldsa44_use_hint_coeff_checked(
    builder: &mut CircuitBuilder,
    h: Wire,
    r: Wire,
) -> (res: Wire)
    requires
        old(builder).wf(),
        old(builder).has(h),
        old(builder).has(r),
    ensures
        final(builder).extends(*old(builder)),
        final(builder).has(res),
        forall|w: Seq<u64>|
            #[trigger] final(builder).accepts(w) == (old(builder).accepts(w) && old(builder).val(
                w,
                r,
            ) < mldsa44::Q),
        forall|w: Seq<u64>|
            #![trigger final(builder).val(w, res)]
            old(builder).val(w, r) < mldsa44::Q ==> final(builder).val(w, res) == use_hint_of(
                old(builder).val(w, h) & 1 == 1,
                old(builder).val(w, r),
            ),
{
    let ghost b0 = *builder;
    let zero = builder.add_constant_64(0);
    let one = builder.add_constant_64(1);
    let r1 = mldsa44_high_bits(builder, r);
    let ghost b1 = *builder;
    let r0_positive = mldsa44_r0_is_positive(builder, r, r1);
    let ghost b2 = *builder;
    let max = builder.add_constant_64(mldsa44::W1_COEFF_MAX);
    let r1_is_max = builder.icmp_eq(r1, max);
    let (r1_plus_one, _carry) = builder.iadd(r1, one);
    let inc = builder.select(r1_is_max, zero, r1_plus_one);
    let r1_is_zero = builder.icmp_eq(r1, zero);
    let dec_wrapped = isub_one(builder, r1);
    let dec = builder.select(r1_is_zero, max, dec_wrapped);
    let hinted = builder.select(r0_positive, inc, dec);
    let h_is_one = builder.shl(h, 63);
    let res = builder.select(h_is_one, hinted, r1);
    proof {
        assert forall|w: Seq<u64>|
            #![trigger builder.val(w, res)]
            b0.val(w, r) < mldsa44::Q implies builder.val(w, res) == use_hint_of(
            b0.val(w, h) & 1 == 1,
            b0.val(w, r),
        ) by {
            let v = b0.val(w, r);
            let r0 = lemma_high_bits_decompose(v);
            let h1 = high_bits_of(v);
            lemma_shr_bits(0, b0.val(w, h));
            assert(b1.val(w, r1) == h1);
            assert(b2.val(w, r0_positive) == mask(low_bits_positive(v)));
            assert(builder.val(w, inc) == (h1 + 1) % 44);
            assert(builder.val(w, dec) == (h1 + 43) % 44);
            assert(is_true(builder.val(w, h_is_one)) == (b0.val(w, h) & 1 == 1));
        }
    }
    res
}

/// The coefficients of `UseHint` on lists.
pub open spec fn use_hints_of(h: Seq<u64>, r: Seq<u64>, i: int) -> int {
    use_hint_of(h[i] & 1 == 1, r[i])
}

/// Whether every coefficient lies below the modulus.
pub open spec fn all_below_q(r: Seq<u64>) -> bool {
    forall|i: int| 0 <= i < r.len() ==> #[trigger] r[i] < mldsa44::Q
}

/// Computes `UseHint(h, wApprox)` coefficient-wise, and asserts that `h` is made of bits of which
/// at most `omega` are set, and that every coefficient of `wApprox` is below `q`.
pub fn mldsa44_use_hint(
    builder: &mut CircuitBuilder,
    h_coeffs: &[Wire],
    w_approx_coeffs: &[Wire],
) -> (res: Vec<Wire>)
    requires
        old(builder).wf(),
        old(builder).has_all(h_coeffs@),
        old(builder).has_all(w_approx_coeffs@),
        h_coeffs@.len() == 1024,
        w_approx_coeffs@.len() == 1024,
    ensures
        final(builder).extends(*old(builder)),
        final(builder).has_all(res@),
        res@.len() == 1024,
        forall|w: Seq<u64>|
            #[trigger] final(builder).accepts(w) == (old(builder).accepts(w) && hint_weight_ok(
                old(builder).vals(w, h_coeffs@),
                80,
            ) && all_below_q(old(builder).vals(w, w_approx_coeffs@))),
        forall|w: Seq<u64>, i: int|
            0 <= i < 1024 && all_below_q(old(builder).vals(w, w_approx_coeffs@))
                ==> #[trigger] final(builder).val(w, res@[i]) == use_hints_of(
                old(builder).vals(w, h_coeffs@),
                old(builder).vals(w, w_approx_coeffs@),
                i,
            ),
{
    let ghost b0 = *builder;
    assert_mldsa44_h_bits_and_weight(builder, h_coeffs);
    let ghost b1 = *builder;
    proof {
        lemma_vals_kept(b1, b0, h_coeffs@);
        lemma_vals_kept(b1, b0, w_approx_coeffs@);
    }
    mldsa44_use_hint_checked(builder, h_coeffs, w_approx_coeffs)
}

/// Computes `UseHint(h, wApprox)` coefficient-wise with the lowest bits of `h`, and asserts that
/// every coefficient of `wApprox` is below `q`.
pub(crate) fn mldsa44_use_hint_checked(
    builder: &mut CircuitBuilder,
    h_coeffs: &[Wire],
    w_approx_coeffs: &[Wire],
) -> (res: Vec<Wire>)
    requires
        old(builder).wf(),
        old(builder).has_all(h_coeffs@),
        old(builder).has_all(w_approx_coeffs@),
        h_coeffs@.len() == 1024,
        w_approx_coeffs@.len() == 1024,
    ensures
        final(builder).extends(*old(builder)),
        final(builder).has_all(res@),
        res@.len() == 1024,
        forall|w: Seq<u64>|
            #[trigger] final(builder).accepts(w) == (old(builder).accepts(w) && all_below_q(
                old(builder).vals(w, w_approx_coeffs@),
            )),
        forall|w: Seq<u64>, i: int|
            0 <= i < 1024 && all_below_q(old(builder).vals(w, w_approx_coeffs@))
                ==> #[trigger] final(builder).val(w, res@[i]) == use_hints_of(
                old(builder).vals(w, h_coeffs@),
                old(builder).vals(w, w_approx_coeffs@),
                i,
            ),
{
    let ghost b0 = *builder;
    let ghost (hs, rs) = (h_coeffs@, w_approx_coeffs@);
    let mut res: Vec<Wire> = Vec::new();
    proof {
        assert forall|w: Seq<u64>| b0.accepts(w) == (b0.accepts(w) && #[trigger] all_below_q(
            b0.vals(w, rs).take(0),
        )) by {}
    }
    for i in 0..1024
        invariant
            b0.wf(),
            b0.has_all(hs),
            b0.has_all(rs),
            hs == h_coeffs@,
            rs == w_approx_coeffs@,
            hs.len() == 1024,
            rs.len() == 1024,
            builder.extends(b0),
            builder.has_all(res@),
            res@.len() == i,
            forall|w: Seq<u64>|
                #[trigger] builder.accepts(w) == (b0.accepts(w) && all_below_q(
                    b0.vals(w, rs).take(ix(i)),
                )),
            forall|w: Seq<u64>, k: int|
                0 <= k < i && b0.val(w, rs[k]) < mldsa44::Q ==> #[trigger] builder.val(w, res@[k])
                    == use_hints_of(b0.vals(w, hs), b0.vals(w, rs), k),
    {
        let ghost bi = *builder;
        let ghost ri = res@;
        assert(b0.has(hs[ix(i)]) && b0.has(rs[ix(i)]));
        let c = mldsa44_use_hint_coeff_checked(builder, h_coeffs[i], w_approx_coeffs[i]);
        res.push(c);
        proof {
            assert forall|w: Seq<u64>| #[trigger] builder.accepts(w) == (b0.accepts(w)
                && all_below_q(b0.vals(w, rs).take(i + 1))) by {
                let v = b0.vals(w, rs);
                assert(bi.val(w, rs[ix(i)]) == v[ix(i)]);
                assert(v.take(i + 1) =~= v.take(ix(i)).push(v[ix(i)]));
                let (a, b) = (v.take(ix(i)), v.take(i + 1));
                if all_below_q(b) {
                    assert forall|k: int| 0 <= k < a.len() implies #[trigger] a[k] < mldsa44::Q by {
                        assert(b[k] == a[k]);
                    }
                    assert(b[ix(i)] == v[ix(i)]);
                }
                if all_below_q(a) && v[ix(i)] < mldsa44::Q {
                    assert forall|k: int| 0 <= k < b.len() implies #[trigger] b[k] < mldsa44::Q by {
                        if k < i {
                            assert(a[k] == b[k]);
                        }
                    }
                }
            }
            assert forall|w: Seq<u64>, k: int|
                0 <= k < i + 1 && b0.val(w, rs[k]) < mldsa44::Q implies #[trigger] builder.val(
                w,
                res@[k],
            ) == use_hints_of(b0.vals(w, hs), b0.vals(w, rs), k) by {
                if k < i {
                    assert(res@[k] == ri[k]);
                    assert(bi.has(ri[k]));
                    assert(bi.val(w, ri[k]) == use_hints_of(b0.vals(w, hs), b0.vals(w, rs), k));
                } else {
                    assert(bi.val(w, rs[ix(i)]) == b0.val(w, rs[ix(i)]));
                    assert(bi.val(w, hs[ix(i)]) == b0.val(w, hs[ix(i)]));
                }
            }
        }
    }
    proof {
        assert forall|w: Seq<u64>| #[trigger] builder.accepts(w) == (b0.accepts(w) && all_below_q(
            b0.vals(w, rs),
        )) by {
            assert(b0.vals(w, rs).take(1024) =~= b0.vals(w, rs));
        }
        assert forall|w: Seq<u64>, i: int|
            0 <= i < 1024 && all_below_q(b0.vals(w, rs)) implies #[trigger] builder.val(w, res@[i])
            == use_hints_of(b0.vals(w, hs), b0.vals(w, rs), i) by {
            assert(b0.vals(w, rs)[i] < mldsa44::Q);
        }
    }
    res
}

} // verus!
