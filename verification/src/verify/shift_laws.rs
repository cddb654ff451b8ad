//! Laws of the shift selectors: their values on the hypercube, their linearity in every
//! coordinate, and how they follow the shifts of words.
use super::h_op::{selector, selector_at, source_bit, source_weight};
use crate::constraint_system::{halves, rotr_half, shifted_word, sra_half, ShiftVariant};
use crate::field::BinaryField;
use crate::math::multilinear::{bit_point, eq_weight, lemma_eq_weight_vertex};
use crate::math::sums::{
    lemma_distr, lemma_sum_ext, lemma_sum_plus, lemma_sum_scale, lemma_sum_single, lemma_zero, sum,
};
use vstd::arithmetic::power2::{lemma2_to64, pow2};
use crate::field::{BinaryField128bGhash, B128};
use crate::math::lagrange::{lagrange_of, lemma_lagrange_one, lemma_lagrange_vanishes};
use crate::math::subspace::{
    canonical_basis, lemma_canonical_points, lemma_canonical_points_differ, subspace_points,
};
use vstd::prelude::*;

verus! {

/// One where the condition holds, else zero.
pub open spec fn indicator<F: BinaryField>(c: bool) -> F {
    if c {
        F::one_of()
    } else {
        F::zero_of()
    }
}

/// At the vertices of the hypercube the selector is the indicator of the shift: with all weight
/// on target bit `i`, at source bit `j` and amount `s`, it is one exactly where the shift by `s`
/// moves bit `j` to bit `i`.
pub proof fn lemma_selector_vertex<F: BinaryField>(v: ShiftVariant, i: int, j: int, s: int)
    requires
        0 <= i < 64,
        0 <= j < 64,
        0 <= s < 64,
    ensures
        selector(
            v,
            Seq::new(64, |k: int| indicator::<F>(k == i)),
            bit_point::<F>(6, j),
            bit_point::<F>(6, s),
        ) == indicator::<F>(source_bit(v, i, s) == Some(j)),
{
    lemma2_to64();
    assert(pow2(6) == 64);
    let l = Seq::new(64, |k: int| indicator::<F>(k == i));
    let (rj, rs) = (bit_point::<F>(6, j), bit_point::<F>(6, s));
    let f = |k: int| l[k].times(selector_at(v, rj, rs, k));
    assert forall|k: int| 0 <= k < 64 && k != i implies #[trigger] f(k) == F::zero_of() by {
        lemma_zero(selector_at(v, rj, rs, k));
    }
    lemma_sum_single(f, i, 64);
    lemma_zero(selector_at(v, rj, rs, i));
    let g = |t: int| eq_weight(rs, t).times(source_weight(v, rj, i, t));
    assert forall|t: int| 0 <= t < 64 && t != s implies #[trigger] g(t) == F::zero_of() by {
        lemma_eq_weight_vertex::<F>(6, s, t);
        lemma_zero(source_weight(v, rj, i, t));
    }
    lemma_sum_single(g, s, 64);
    lemma_eq_weight_vertex::<F>(6, s, s);
    lemma_zero(source_weight(v, rj, i, s));
    match source_bit(v, i, s) {
        Some(t) => {
            lemma_eq_weight_vertex::<F>(6, j, t);
        },
        None => {},
    }
}

/// The value at `t` of the line through `a` at zero and `b` at one.
pub open spec fn line<F: BinaryField>(a: F, b: F, t: F) -> F {
    F::one_of().plus(t).times(a).plus(t.times(b))
}

proof fn lemma_line_times<F: BinaryField>(a: F, b: F, t: F, c: F)
    ensures
        line(a, b, t).times(c) == line(a.times(c), b.times(c), t),
        c.times(line(a, b, t)) == line(c.times(a), c.times(b), t),
{
    let u = F::one_of().plus(t);
    lemma_distr(u.times(a), t.times(b), c);
    F::lemma_times(u, a, c);
    F::lemma_times(t, b, c);
    F::lemma_times(c, u, a);
    F::lemma_times(u, c, a);
    F::lemma_times(c, t, b);
    F::lemma_times(t, c, b);
}

/// With the Lagrange polynomials of the 64-point domain at its point `i`, a selector at vertices is
/// one exactly where the shift takes target bit `i` from source bit `j`.
pub proof fn lemma_selector_at_domain_point(v: ShiftVariant, i: int, j: int, s: int)
    requires
        0 <= i < 64,
        0 <= j < 64,
        0 <= s < 64,
    ensures
        selector(
            v,
            lagrange_of(subspace_points(canonical_basis::<B128>(6)), BinaryField128bGhash(i as u128)),
            bit_point::<B128>(6, j),
            bit_point::<B128>(6, s),
        ) == indicator::<B128>(source_bit(v, i, s) == Some(j)),
{
    lemma2_to64();
    let xs = subspace_points(canonical_basis::<B128>(6));
    lemma_canonical_points(6, i);
    lemma_canonical_points_differ(6);
    assert(xs[i] == BinaryField128bGhash(i as u128));
    let l = lagrange_of(xs, xs[i]);
    let want = Seq::new(64, |k: int| indicator::<B128>(k == i));
    assert forall|k: int| 0 <= k < 64 implies #[trigger] l[k] == want[k] by {
        if k == i {
            lemma_lagrange_one(xs, k);
        } else {
            lemma_lagrange_vanishes(xs, k, i);
        }
    }
    assert(l =~= want);
    lemma_selector_vertex::<B128>(v, i, j, s);
}

/// An equality weight is linear in every coordinate of the point.
pub proof fn lemma_eq_weight_linear<F: BinaryField>(r: Seq<F>, k: int, i: int)
    requires
        0 <= k < r.len(),
    ensures
        eq_weight(r, i) == line(
            eq_weight(r.update(k, F::zero_of()), i),
            eq_weight(r.update(k, F::one_of()), i),
            r[k],
        ),
    decreases r.len(),
{
    let (zero, one) = (F::zero_of(), F::one_of());
    let (r0, r1) = (r.update(k, zero), r.update(k, one));
    let half = pow2((r.len() - 1) as nat) as int;
    let ii = if i < half {
        i
    } else {
        i - half
    };
    let t = r[k];
    if k == r.len() - 1 {
        assert(r0.drop_last() =~= r.drop_last());
        assert(r1.drop_last() =~= r.drop_last());
        let w = eq_weight(r.drop_last(), ii);
        let u = one.plus(t);
        lemma_zero(w);
        lemma_zero(one);
        lemma_zero(t);
        lemma_zero(u);
        F::lemma_plus(one, one, one);
        F::lemma_times(w, u, u);
        F::lemma_times(w, t, t);
        lemma_zero(u.times(w));
        lemma_zero(t.times(w));
    } else {
        assert(r0.drop_last() =~= r.drop_last().update(k, zero));
        assert(r1.drop_last() =~= r.drop_last().update(k, one));
        lemma_eq_weight_linear(r.drop_last(), k, ii);
        let (a, b) = (eq_weight(r0.drop_last(), ii), eq_weight(r1.drop_last(), ii));
        let c = if i < half {
            one.plus(r.last())
        } else {
            r.last()
        };
        lemma_line_times(a, b, t, c);
    }
}

proof fn lemma_sum_line<F: BinaryField>(
    f: spec_fn(int) -> F,
    a: spec_fn(int) -> F,
    b: spec_fn(int) -> F,
    t: F,
    n: nat,
)
    requires
        forall|i: int| 0 <= i < n ==> #[trigger] f(i) == line(a(i), b(i), t),
    ensures
        sum(f, n) == line(sum(a, n), sum(b, n), t),
{
    let u = F::one_of().plus(t);
    let ua = |i: int| u.times(a(i));
    let tb = |i: int| t.times(b(i));
    lemma_sum_ext(f, |i: int| ua(i).plus(tb(i)), n);
    lemma_sum_plus(ua, tb, n);
    lemma_sum_scale(u, a, n);
    lemma_sum_scale(t, b, n);
}

/// The selector is linear in every coordinate of the source-bit point.
pub proof fn lemma_selector_linear_in_source<F: BinaryField>(
    v: ShiftVariant,
    l: Seq<F>,
    r_j: Seq<F>,
    r_s: Seq<F>,
    k: int,
)
    requires
        0 <= k < r_j.len(),
    ensures
        selector(v, l, r_j, r_s) == line(
            selector(v, l, r_j.update(k, F::zero_of()), r_s),
            selector(v, l, r_j.update(k, F::one_of()), r_s),
            r_j[k],
        ),
{
    let t = r_j[k];
    let (j0, j1) = (r_j.update(k, F::zero_of()), r_j.update(k, F::one_of()));
    let f = |i: int| l[i].times(selector_at(v, r_j, r_s, i));
    let a = |i: int| l[i].times(selector_at(v, j0, r_s, i));
    let b = |i: int| l[i].times(selector_at(v, j1, r_s, i));
    assert forall|i: int| 0 <= i < 64 implies #[trigger] f(i) == line(a(i), b(i), t) by {
        let g = |s: int| eq_weight(r_s, s).times(source_weight(v, r_j, i, s));
        let ga = |s: int| eq_weight(r_s, s).times(source_weight(v, j0, i, s));
        let gb = |s: int| eq_weight(r_s, s).times(source_weight(v, j1, i, s));
        assert forall|s: int| 0 <= s < 64 implies #[trigger] g(s) == line(ga(s), gb(s), t) by {
            let w = eq_weight(r_s, s);
            match source_bit(v, i, s) {
                Some(j) => {
                    lemma_eq_weight_linear(r_j, k, j);
                    lemma_line_times(eq_weight(j0, j), eq_weight(j1, j), t, w);
                },
                None => {
                    lemma_zero(w);
                    lemma_zero(t);
                    lemma_zero(F::one_of().plus(t));
                    lemma_zero(F::zero_of());
                },
            }
        }
        lemma_sum_line(g, ga, gb, t, 64);
        lemma_line_times(
            selector_at(v, j0, r_s, i),
            selector_at(v, j1, r_s, i),
            t,
            l[i],
        );
    }
    lemma_sum_line(f, a, b, t, 64);
}

/// The selector is linear in every coordinate of the amount point.
pub proof fn lemma_selector_linear_in_amount<F: BinaryField>(
    v: ShiftVariant,
    l: Seq<F>,
    r_j: Seq<F>,
    r_s: Seq<F>,
    k: int,
)
    requires
        0 <= k < r_s.len(),
    ensures
        selector(v, l, r_j, r_s) == line(
            selector(v, l, r_j, r_s.update(k, F::zero_of())),
            selector(v, l, r_j, r_s.update(k, F::one_of())),
            r_s[k],
        ),
{
    let t = r_s[k];
    let (s0, s1) = (r_s.update(k, F::zero_of()), r_s.update(k, F::one_of()));
    let f = |i: int| l[i].times(selector_at(v, r_j, r_s, i));
    let a = |i: int| l[i].times(selector_at(v, r_j, s0, i));
    let b = |i: int| l[i].times(selector_at(v, r_j, s1, i));
    assert forall|i: int| 0 <= i < 64 implies #[trigger] f(i) == line(a(i), b(i), t) by {
        let g = |s: int| eq_weight(r_s, s).times(source_weight(v, r_j, i, s));
        let ga = |s: int| eq_weight(s0, s).times(source_weight(v, r_j, i, s));
        let gb = |s: int| eq_weight(s1, s).times(source_weight(v, r_j, i, s));
        assert forall|s: int| 0 <= s < 64 implies #[trigger] g(s) == line(ga(s), gb(s), t) by {
            lemma_eq_weight_linear(r_s, k, s);
            lemma_line_times(
                eq_weight(s0, s),
                eq_weight(s1, s),
                t,
                source_weight(v, r_j, i, s),
            );
        }
        lemma_sum_line(g, ga, gb, t, 64);
        lemma_line_times(
            selector_at(v, r_j, s0, i),
            selector_at(v, r_j, s1, i),
            t,
            l[i],
        );
    }
    lemma_sum_line(f, a, b, t, 64);
}

/// Bit `i` of a word.
pub open spec fn bit64(x: u64, i: int) -> bool {
    (x >> (i as u64)) & 1 == 1
}

proof fn lemma_shift_bits_64(x: u64, i: u64, s: u64)
    by (bit_vector)
    requires
        i < 64,
        s < 64,
    ensures
        (((x << s) >> i) & 1 == 1) == (s <= i && (x >> ((i - s) as u64)) & 1 == 1),
        (((x >> s) >> i) & 1 == 1) == (i + s < 64 && (x >> ((i + s) as u64)) & 1 == 1),
        ((((x >> s) | (if s > 0 && x >> 63u64 == 1 {
            0xffff_ffff_ffff_ffffu64 << ((64 - s) as u64)
        } else {
            0
        })) >> i) & 1 == 1) == (if i + s < 64 {
            (x >> ((i + s) as u64)) & 1 == 1
        } else {
            (x >> 63u64) & 1 == 1
        }),
        s > 0 ==> ((((x << ((64 - s) as u64)) | (x >> s)) >> i) & 1 == 1) == ((x >> (if i + s < 64 {
            (i + s) as u64
        } else {
            (i + s - 64) as u64
        })) & 1 == 1),
{
}

proof fn lemma_half_bits(x: u64, h: u64, k: u64, s: u64)
    by (bit_vector)
    requires
        h < 2,
        k < 32,
        s < 32,
    ensures
        ({
            let lo = x & 0xffff_ffff;
            let hi = x >> 32u64;
            let i = (32 * h + k) as u64;
            let b = (32 * h) as u64;
            &&& ((halves((hi << s) & 0xffff_ffff, (lo << s) & 0xffff_ffff) >> i) & 1 == 1) == (s
                <= k && (x >> ((b + k - s) as u64)) & 1 == 1)
            &&& ((halves(hi >> s, lo >> s) >> i) & 1 == 1) == (k + s < 32 && (x >> ((b + k
                + s) as u64)) & 1 == 1)
            &&& ((halves(sra_half(hi, s), sra_half(lo, s)) >> i) & 1 == 1) == ((x >> (if k + s
                < 32 {
                (b + k + s) as u64
            } else {
                (b + 31) as u64
            })) & 1 == 1)
            &&& ((halves(rotr_half(hi, s), rotr_half(lo, s)) >> i) & 1 == 1) == ((x >> (if k + s
                < 32 {
                (b + k + s) as u64
            } else {
                (b + k + s - 32) as u64
            })) & 1 == 1)
        }),
{
}

/// The source bit is where a shift takes its bits from: bit `i` of a shifted word is the source
/// bit of the word, or zero where there is none.
pub proof fn lemma_source_bit(x: u64, v: ShiftVariant, i: int, s: int)
    requires
        0 <= i < 64,
        0 <= s < 64,
    ensures
        bit64(shifted_word(x, v, s), i) == match source_bit(v, i, s) {
            Some(j) => bit64(x, j),
            None => false,
        },
{
    lemma_shift_bits_64(x, i as u64, s as u64);
    lemma_half_bits(x, (i / 32) as u64, (i % 32) as u64, (s % 32) as u64);
    assert((32 * ((i / 32) as u64) + ((i % 32) as u64)) as u64 == i as u64);
    match v {
        ShiftVariant::Rotr => {
            if s > 0 {
                assert((64 - ((64 - s as u64) as u32)) as u64 == s as u64);
                assert(((64 - s as u64) as u32) as u64 == (64 - s) as u64);
                assert((i + s) % 64 == if i + s < 64 {
                    i + s
                } else {
                    i + s - 64
                });
            }
        },
        ShiftVariant::Rotr32 => {
            let (k, m) = (i % 32, s % 32);
            assert((k + m) % 32 == if k + m < 32 {
                k + m
            } else {
                k + m - 32
            });
        },
        _ => {},
    }
}

} // verus!
