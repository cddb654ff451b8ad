//! The shift selector polynomials, one per shift variant.
use super::shift_ind::{
    partial_eval_phi, partial_eval_sigmas, partial_eval_sigmas_transpose, phi_at, sigma_at,
    sigma_prime_at, sigma_transpose_at,
};
use crate::constraint_system::ShiftVariant;
use crate::field::BinaryField;
use crate::math::multilinear::{eq_ind_partial_eval_scalars, eq_weight, lemma_eq_weight_concat};
use crate::math::sums::{
    inner_product, lemma_distr, lemma_sum_blocks, lemma_sum_ext, lemma_sum_plus, lemma_sum_scale,
    lemma_sum_split, lemma_times_swap, lemma_zero, sum, keep_if,
};
use vstd::arithmetic::power2::{lemma2_to64, lemma_pow2_unfold, pow2};
use vstd::prelude::*;

verus! {

/// The bit of a word that a shift by `s` moves to bit `i`, or none where it fills in zero.
pub open spec fn source_bit(v: ShiftVariant, i: int, s: int) -> Option<int> {
    let half = 32 * (i / 32);
    let (i0, s0) = (i % 32, s % 32);
    match v {
        ShiftVariant::Sll => if s <= i {
            Some(i - s)
        } else {
            None
        },
        ShiftVariant::Slr => if i + s < 64 {
            Some(i + s)
        } else {
            None
        },
        ShiftVariant::Sar => if i + s < 64 {
            Some(i + s)
        } else {
            Some(63)
        },
        ShiftVariant::Rotr => Some((i + s) % 64),
        ShiftVariant::Sll32 => if s0 <= i0 {
            Some(half + i0 - s0)
        } else {
            None
        },
        ShiftVariant::Srl32 => if i0 + s0 < 32 {
            Some(half + i0 + s0)
        } else {
            None
        },
        ShiftVariant::Sra32 => if i0 + s0 < 32 {
            Some(half + i0 + s0)
        } else {
            Some(half + 31)
        },
        ShiftVariant::Rotr32 => Some(half + (i0 + s0) % 32),
    }
}

/// The weight of the source bit at the point `r_j`, zero where there is none.
pub open spec fn source_weight<F: BinaryField>(v: ShiftVariant, r_j: Seq<F>, i: int, s: int) -> F {
    match source_bit(v, i, s) {
        Some(j) => eq_weight(r_j, j),
        None => F::zero_of(),
    }
}

/// The shift selector at target bit `i`: the weight of all pairs of a source bit and an amount
/// whose shift moves the source bit to `i`.
pub open spec fn selector_at<F: BinaryField>(
    v: ShiftVariant,
    r_j: Seq<F>,
    r_s: Seq<F>,
    i: int,
) -> F {
    sum(|s: int| eq_weight(r_s, s).times(source_weight(v, r_j, i, s)), 64)
}

/// The shift selector, weighted by `l` over the target bits.
pub open spec fn selector<F: BinaryField>(
    v: ShiftVariant,
    l: Seq<F>,
    r_j: Seq<F>,
    r_s: Seq<F>,
) -> F {
    sum(|i: int| l[i].times(selector_at(v, r_j, r_s, i)), 64)
}

/// The variant with a given position.
pub open spec fn variant_of(id: int) -> ShiftVariant {
    if id == 0 {
        ShiftVariant::Sll
    } else if id == 1 {
        ShiftVariant::Slr
    } else if id == 2 {
        ShiftVariant::Sar
    } else if id == 3 {
        ShiftVariant::Rotr
    } else if id == 4 {
        ShiftVariant::Sll32
    } else if id == 5 {
        ShiftVariant::Srl32
    } else if id == 6 {
        ShiftVariant::Sra32
    } else {
        ShiftVariant::Rotr32
    }
}

/// The product of all coordinates is the weight of the all-one index.
pub open spec fn product_of<F: BinaryField>(r: Seq<F>) -> F
    decreases r.len(),
{
    if r.len() == 0 {
        F::one_of()
    } else {
        product_of(r.drop_last()).times(r.last())
    }
}

proof fn lemma_product_is_top_weight<F: BinaryField>(r: Seq<F>)
    ensures
        product_of(r) == eq_weight(r, pow2(r.len()) - 1),
    decreases r.len(),
{
    lemma2_to64();
    if r.len() > 0 {
        lemma_product_is_top_weight(r.drop_last());
        lemma_pow2_unfold(r.len());
        vstd::arithmetic::power2::lemma_pow2_pos((r.len() - 1) as nat);
    }
}

/// The weights of all indices sum to one.
pub proof fn lemma_weights_sum_to_one<F: BinaryField>(r: Seq<F>)
    ensures
        sum(|i: int| eq_weight(r, i), pow2(r.len())) == F::one_of(),
    decreases r.len(),
{
    let f = |i: int| eq_weight(r, i);
    let one = F::one_of();
    lemma_zero(one);
    lemma2_to64();
    if r.len() == 0 {
        assert(sum(f, 1) == sum(f, 0).plus(f(0)));
    } else {
        let p = r.drop_last();
        let half = pow2(p.len());
        let g = |i: int| eq_weight(p, i);
        lemma_weights_sum_to_one(p);
        lemma_pow2_unfold(r.len());
        lemma_sum_split(f, half, half);
        let lo = one.plus(r.last());
        let fh = |i: int| f(half + i);
        assert forall|i: int| 0 <= i < half implies #[trigger] f(i) == lo.times(g(i)) by {
            F::lemma_times(g(i), lo, lo);
        }
        assert forall|i: int| 0 <= i < half implies #[trigger] fh(i) == r.last().times(g(i)) by {
            F::lemma_times(g(i), r.last(), lo);
            assert(half + i - half == i);
        }
        lemma_sum_ext(f, |i: int| lo.times(g(i)), half);
        lemma_sum_ext(fh, |i: int| r.last().times(g(i)), half);
        lemma_sum_scale(lo, g, half);
        lemma_sum_scale(r.last(), g, half);
        lemma_zero(lo);
        lemma_zero(r.last());
        F::lemma_plus(one, r.last(), r.last());
        F::lemma_plus(r.last(), r.last(), r.last());
    }
}

proof fn lemma_selector_64<F: BinaryField>(r_j: Seq<F>, r_s: Seq<F>, i: int)
    requires
        r_j.len() == 6,
        r_s.len() == 6,
        0 <= i < 64,
    ensures
        selector_at(ShiftVariant::Sll, r_j, r_s, i) == sigma_transpose_at(r_j, r_s, i),
        selector_at(ShiftVariant::Slr, r_j, r_s, i) == sigma_at(r_j, r_s, i),
        selector_at(ShiftVariant::Sar, r_j, r_s, i) == sigma_at(r_j, r_s, i).plus(
            product_of(r_j).times(phi_at(r_s, i)),
        ),
        selector_at(ShiftVariant::Rotr, r_j, r_s, i) == sigma_at(r_j, r_s, i).plus(
            sigma_prime_at(r_j, r_s, i),
        ),
{
    lemma2_to64();
    assert(pow2(6) == 64);
    let ws = |s: int| eq_weight(r_s, s);
    let sll = |s: int| eq_weight(r_s, s).times(source_weight(ShiftVariant::Sll, r_j, i, s));
    let slr = |s: int| eq_weight(r_s, s).times(source_weight(ShiftVariant::Slr, r_j, i, s));
    let sar = |s: int| eq_weight(r_s, s).times(source_weight(ShiftVariant::Sar, r_j, i, s));
    let rot = |s: int| eq_weight(r_s, s).times(source_weight(ShiftVariant::Rotr, r_j, i, s));
    let f = |s: int| keep_if(i + s < 64, eq_weight(r_s, s).times(eq_weight(r_j, i + s)));
    let g = |s: int| keep_if(i + s >= 64, eq_weight(r_s, s).times(eq_weight(r_j, i + s - 64)));
    let h = |s: int| keep_if(s <= i, eq_weight(r_s, s).times(eq_weight(r_j, i - s)));
    let p = |s: int| keep_if(i + s >= 64, eq_weight(r_s, s));
    let top = product_of(r_j);
    lemma_product_is_top_weight(r_j);
    let tp = |s: int| top.times(p(s));
    assert forall|s: int|
        #![trigger sll(s)]
        #![trigger slr(s)]
        0 <= s < 64 implies sll(s) == h(s) && slr(s) == f(s) by {
        lemma_zero(ws(s));
    }
    assert forall|s: int| 0 <= s < 64 implies #[trigger] sar(s) == f(s).plus(tp(s)) by {
        lemma_zero(ws(s));
        lemma_zero(top);
        lemma_zero(f(s));
        lemma_zero(tp(s));
        F::lemma_times(top, ws(s), ws(s));
    }
    assert forall|s: int| 0 <= s < 64 implies #[trigger] rot(s) == f(s).plus(g(s)) by {
        lemma_zero(f(s));
        lemma_zero(g(s));
    }
    lemma_sum_ext(sll, h, 64);
    lemma_sum_ext(slr, f, 64);
    lemma_sum_ext(sar, |s: int| f(s).plus(tp(s)), 64);
    lemma_sum_plus(f, tp, 64);
    lemma_sum_scale(top, p, 64);
    lemma_sum_ext(rot, |s: int| f(s).plus(g(s)), 64);
    lemma_sum_plus(f, g, 64);
    assert(selector_at(ShiftVariant::Sll, r_j, r_s, i) == sum(sll, 64));
    assert(selector_at(ShiftVariant::Slr, r_j, r_s, i) == sum(slr, 64));
    assert(selector_at(ShiftVariant::Sar, r_j, r_s, i) == sum(sar, 64));
    assert(selector_at(ShiftVariant::Rotr, r_j, r_s, i) == sum(rot, 64));
}

/// The half-local source weight of a 32-bit variant.
spec fn half_source<F: BinaryField>(v: ShiftVariant, lo: Seq<F>, i0: int, s0: int) -> F {
    match v {
        ShiftVariant::Sll32 => keep_if(s0 <= i0, eq_weight(lo, i0 - s0)),
        ShiftVariant::Srl32 => keep_if(i0 + s0 < 32, eq_weight(lo, i0 + s0)),
        ShiftVariant::Sra32 => if i0 + s0 < 32 {
            eq_weight(lo, i0 + s0)
        } else {
            eq_weight(lo, 31)
        },
        _ => if i0 + s0 < 32 {
            eq_weight(lo, i0 + s0)
        } else {
            eq_weight(lo, i0 + s0 - 32)
        },
    }
}

spec fn half_selector<F: BinaryField>(v: ShiftVariant, lo: Seq<F>, rs: Seq<F>, i0: int) -> F {
    sum(|s0: int| eq_weight(rs, s0).times(half_source(v, lo, i0, s0)), 32)
}

spec fn is_half_variant(v: ShiftVariant) -> bool {
    v == ShiftVariant::Sll32 || v == ShiftVariant::Srl32 || v == ShiftVariant::Sra32 || v
        == ShiftVariant::Rotr32
}

proof fn lemma_half_source<F: BinaryField>(v: ShiftVariant, r_j: Seq<F>, i: int, s: int)
    requires
        is_half_variant(v),
        r_j.len() == 6,
        0 <= i < 64,
        0 <= s < 64,
    ensures
        source_weight(v, r_j, i, s) == eq_weight(r_j.skip(5), i / 32).times(
            half_source(v, r_j.take(5), i % 32, s % 32),
        ),
{
    lemma2_to64();
    let (lo, hi) = (r_j.take(5), r_j.skip(5));
    assert(lo + hi =~= r_j);
    let h = i / 32;
    assert(pow2(5) == 32 && pow2(1) == 2);
    match source_bit(v, i, s) {
        Some(j) => {
            let j0 = j - 32 * h;
            assert(0 <= j0 < 32);
            lemma_eq_weight_concat(lo, hi, j0, h);
            assert(h * pow2(5) + j0 == j);
            F::lemma_times(eq_weight(lo, j0), eq_weight(hi, h), eq_weight(hi, h));
        },
        None => {
            lemma_zero(eq_weight(hi, h));
        },
    }
}

proof fn lemma_selector_half<F: BinaryField>(v: ShiftVariant, r_j: Seq<F>, r_s: Seq<F>, i: int)
    requires
        is_half_variant(v),
        r_j.len() == 6,
        r_s.len() == 6,
        0 <= i < 64,
    ensures
        selector_at(v, r_j, r_s, i) == eq_weight(r_j.skip(5), i / 32).times(
            half_selector(v, r_j.take(5), r_s.take(5), i % 32),
        ),
{
    lemma2_to64();
    let (lo, hi) = (r_j.take(5), r_j.skip(5));
    let (slo, shi) = (r_s.take(5), r_s.skip(5));
    assert(slo + shi =~= r_s);
    assert(pow2(5) == 32 && pow2(1) == 2);
    let top = eq_weight(hi, i / 32);
    let full = |s: int| eq_weight(r_s, s).times(source_weight(v, r_j, i, s));
    let y = half_selector(v, lo, slo, i % 32);
    let inner0 = |s0: int| eq_weight(slo, s0).times(half_source(v, lo, i % 32, s0));
    let whi = |b: int| eq_weight(shi, b);
    lemma_sum_blocks(full, 2, 32);
    let blocks = |b: int| sum(|s0: int| full(b * 32 + s0), 32);
    let scaled = |b: int| top.times(y).times(whi(b));
    assert forall|b: int| 0 <= b < 2 implies #[trigger] blocks(b) == scaled(b) by {
        let c = top.times(whi(b));
        let row = |s0: int| full(b * 32 + s0);
        let want = |s0: int| c.times(inner0(s0));
        assert forall|s0: int| 0 <= s0 < 32 implies #[trigger] row(s0) == want(s0) by {
            let s = b * 32 + s0;
            assert(s % 32 == s0);
            lemma_half_source(v, r_j, i, s);
            lemma_eq_weight_concat(slo, shi, s0, b);
            assert(b * pow2(5) + s0 == s);
            let (e, w) = (eq_weight(slo, s0), whi(b));
            let x = half_source(v, lo, i % 32, s0);
            // (e * w) * (top * x) = (top * w) * (e * x)
            F::lemma_times(e, w, w);
            lemma_times_swap(w, e, top, x);
            F::lemma_times(w, top, top);
        }
        lemma_sum_ext(row, want, 32);
        lemma_sum_scale(c, inner0, 32);
        assert(blocks(b) == sum(row, 32));
        F::lemma_times(top, whi(b), y);
        F::lemma_times(whi(b), y, y);
        F::lemma_times(top, y, whi(b));
    }
    lemma_sum_ext(blocks, scaled, 2);
    lemma_sum_scale(top.times(y), whi, 2);
    lemma_weights_sum_to_one(shi);
    assert(sum(whi, 2) == F::one_of());
    lemma_zero(top.times(y));
    assert(selector_at(v, r_j, r_s, i) == sum(full, 64));
}

proof fn lemma_half_selectors<F: BinaryField>(lo: Seq<F>, rs: Seq<F>, i0: int)
    requires
        lo.len() == 5,
        rs.len() == 5,
        0 <= i0 < 32,
    ensures
        half_selector(ShiftVariant::Sll32, lo, rs, i0) == sigma_transpose_at(lo, rs, i0),
        half_selector(ShiftVariant::Srl32, lo, rs, i0) == sigma_at(lo, rs, i0),
        half_selector(ShiftVariant::Sra32, lo, rs, i0) == sigma_at(lo, rs, i0).plus(
            product_of(lo).times(phi_at(rs, i0)),
        ),
        half_selector(ShiftVariant::Rotr32, lo, rs, i0) == sigma_at(lo, rs, i0).plus(
            sigma_prime_at(lo, rs, i0),
        ),
{
    lemma2_to64();
    assert(pow2(5) == 32);
    let ws = |s: int| eq_weight(rs, s);
    let sll = |s: int| eq_weight(rs, s).times(half_source(ShiftVariant::Sll32, lo, i0, s));
    let slr = |s: int| eq_weight(rs, s).times(half_source(ShiftVariant::Srl32, lo, i0, s));
    let sar = |s: int| eq_weight(rs, s).times(half_source(ShiftVariant::Sra32, lo, i0, s));
    let rot = |s: int| eq_weight(rs, s).times(half_source(ShiftVariant::Rotr32, lo, i0, s));
    let f = |s: int| keep_if(i0 + s < 32, eq_weight(rs, s).times(eq_weight(lo, i0 + s)));
    let g = |s: int| keep_if(i0 + s >= 32, eq_weight(rs, s).times(eq_weight(lo, i0 + s - 32)));
    let h = |s: int| keep_if(s <= i0, eq_weight(rs, s).times(eq_weight(lo, i0 - s)));
    let p = |s: int| keep_if(i0 + s >= 32, eq_weight(rs, s));
    let top = product_of(lo);
    lemma_product_is_top_weight(lo);
    let tp = |s: int| top.times(p(s));
    assert forall|s: int|
        #![trigger sll(s)]
        #![trigger slr(s)]
        0 <= s < 32 implies sll(s) == h(s) && slr(s) == f(s) by {
        lemma_zero(ws(s));
    }
    assert forall|s: int| 0 <= s < 32 implies #[trigger] sar(s) == f(s).plus(tp(s)) by {
        lemma_zero(ws(s));
        lemma_zero(top);
        lemma_zero(f(s));
        lemma_zero(tp(s));
        F::lemma_times(top, ws(s), ws(s));
    }
    assert forall|s: int| 0 <= s < 32 implies #[trigger] rot(s) == f(s).plus(g(s)) by {
        lemma_zero(f(s));
        lemma_zero(g(s));
    }
    lemma_sum_ext(sll, h, 32);
    lemma_sum_ext(slr, f, 32);
    lemma_sum_ext(sar, |s: int| f(s).plus(tp(s)), 32);
    lemma_sum_plus(f, tp, 32);
    lemma_sum_scale(top, p, 32);
    lemma_sum_ext(rot, |s: int| f(s).plus(g(s)), 32);
    lemma_sum_plus(f, g, 32);
    assert(half_selector(ShiftVariant::Sll32, lo, rs, i0) == sum(sll, 32));
    assert(half_selector(ShiftVariant::Srl32, lo, rs, i0) == sum(slr, 32));
    assert(half_selector(ShiftVariant::Sra32, lo, rs, i0) == sum(sar, 32));
    assert(half_selector(ShiftVariant::Rotr32, lo, rs, i0) == sum(rot, 32));
}

/// The product of all coordinates.
fn product<F: BinaryField>(r: &[F]) -> (p: F)
    ensures
        p == product_of(r@),
{
    let mut acc = F::one();
    let n: usize = r.len();
    assert(r@.take(0) =~= Seq::<F>::empty());
    for k in 0..n
        invariant
            n == r@.len(),
            acc == product_of(r@.take(k as int)),
    {
        acc = acc.mul(r[k]);
        assert(r@.take(k + 1).drop_last() =~= r@.take(k as int));
    }
    assert(r@.take(n as int) =~= r@);
    acc
}

/// `sum_h w[h] * sum_i l[32h + i] * y[i]` over the two halves.
fn halves_inner<F: BinaryField>(l: &[F], w: &[F], y: &[F]) -> (r: F)
    requires
        l@.len() == 64,
        w@.len() == 2,
        y@.len() == 32,
    ensures
        r == sum(|i: int| l@[i].times(w@[i / 32].times(y@[i % 32])), 64),
{
    let (l0, l1) = l.split_at(32);
    let a = inner_product(l0, y);
    let b = inner_product(l1, y);
    let r = w[0].mul(a).add(w[1].mul(b));
    proof {
        let f = |i: int| l@[i].times(w@[i / 32].times(y@[i % 32]));
        lemma_sum_split(f, 32, 32);
        let f0 = |i: int| l0@[i].times(y@[i]);
        let f1 = |i: int| l1@[i].times(y@[i]);
        let g1 = |i: int| f(32nat + i);
        assert forall|i: int| 0 <= i < 32 implies #[trigger] f(i) == w@[0].times(f0(i)) by {
            assert(l0@[i] == l@[i]);
            F::lemma_times(l@[i], w@[0], y@[i]);
            F::lemma_times(w@[0], l@[i], y@[i]);
        }
        assert forall|i: int| 0 <= i < 32 implies #[trigger] g1(i) == w@[1].times(f1(i)) by {
            assert(l1@[i] == l@[32 + i]);
            F::lemma_times(l@[32 + i], w@[1], y@[i]);
            F::lemma_times(w@[1], l@[32 + i], y@[i]);
        }
        lemma_sum_ext(f, |i: int| w@[0].times(f0(i)), 32);
        lemma_sum_ext(g1, |i: int| w@[1].times(f1(i)), 32);
        lemma_sum_scale(w@[0], f0, 32);
        lemma_sum_scale(w@[1], f1, 32);
        assert(sum(f, 64) == sum(f, 32).plus(sum(g1, 32)));
    }
    r
}

/// The element-wise sum of two lists.
fn add_all<F: BinaryField>(a: &Vec<F>, b: &Vec<F>) -> (r: Vec<F>)
    requires
        a@.len() == b@.len(),
    ensures
        r@ == Seq::new(a@.len(), |i: int| a@[i].plus(b@[i])),
{
    let mut r: Vec<F> = Vec::new();
    let n: usize = a.len();
    for i in 0..n
        invariant
            n == a@.len(),
            n == b@.len(),
            r@.len() == i,
            forall|k: int| 0 <= k < i ==> #[trigger] r@[k] == a@[k].plus(b@[k]),
    {
        r.push(a[i].add(b[i]));
    }
    assert(r@ =~= Seq::new(a@.len(), |i: int| a@[i].plus(b@[i])));
    r
}

/// Evaluates the shift selectors, one per shift variant, at the points `r_j` of the source bit
/// and `r_s` of the amount, weighted by `l_tilde` over the target bits.
pub fn evaluate_h_op<F: BinaryField>(l_tilde: &[F], r_j: &[F], r_s: &[F]) -> (r: [F; 8])
    requires
        l_tilde@.len() == 64,
        r_j@.len() == 6,
        r_s@.len() == 6,
    ensures
        forall|v: int|
            0 <= v < 8 ==> #[trigger] r[v] == selector(variant_of(v), l_tilde@, r_j@, r_s@),
{
    proof {
        lemma2_to64();
        assert(pow2(6) == 64 && pow2(5) == 32 && pow2(1) == 2);
    }
    // 64-bit shifts
    let (sigma, sigma_prime) = partial_eval_sigmas(r_j, r_s);
    let sigma_transpose = partial_eval_sigmas_transpose(r_j, r_s);
    let phi = partial_eval_phi(r_s);
    let j_product = product(r_j);
    // 32-bit shifts
    let (r_j_lo, r_j_rest) = r_j.split_at(5);
    let (r_s_lo, _r_s_rest) = r_s.split_at(5);
    let (sigma32, sigma32_prime) = partial_eval_sigmas(r_j_lo, r_s_lo);
    let sigma32_transpose = partial_eval_sigmas_transpose(r_j_lo, r_s_lo);
    let phi32 = partial_eval_phi(r_s_lo);
    let j_product32 = product(r_j_lo);
    let rest = eq_ind_partial_eval_scalars(r_j_rest);

    let sll = inner_product(l_tilde, sigma_transpose.as_slice());
    let srl = inner_product(l_tilde, sigma.as_slice());
    let phi_sum = inner_product(l_tilde, phi.as_slice());
    let sra = srl.add(j_product.mul(phi_sum));
    let rot_rows = add_all(&sigma, &sigma_prime);
    let rotr = inner_product(l_tilde, rot_rows.as_slice());

    let sll32 = halves_inner(l_tilde, rest.as_slice(), sigma32_transpose.as_slice());
    let srl32 = halves_inner(l_tilde, rest.as_slice(), sigma32.as_slice());
    let phi32_sum = halves_inner(l_tilde, rest.as_slice(), phi32.as_slice());
    let sra32 = srl32.add(j_product32.mul(phi32_sum));
    let rot32_rows = add_all(&sigma32, &sigma32_prime);
    let rotr32 = halves_inner(l_tilde, rest.as_slice(), rot32_rows.as_slice());
    proof {
        let l = l_tilde@;
        let (rj, rs) = (r_j@, r_s@);
        assert(r_j_lo@ =~= rj.take(5) && r_j_rest@ =~= rj.skip(5) && r_s_lo@ =~= rs.take(5));
        let fsll = |i: int| l[i].times(selector_at(ShiftVariant::Sll, rj, rs, i));
        let fslr = |i: int| l[i].times(selector_at(ShiftVariant::Slr, rj, rs, i));
        let fsar = |i: int| l[i].times(selector_at(ShiftVariant::Sar, rj, rs, i));
        let frot = |i: int| l[i].times(selector_at(ShiftVariant::Rotr, rj, rs, i));
        assert forall|i: int|
            #![trigger fsll(i)]
            #![trigger fslr(i)]
            #![trigger fsar(i)]
            #![trigger frot(i)]
            0 <= i < 64 implies {
            &&& fsll(i) == l[i].times(sigma_transpose@[i])
            &&& fslr(i) == l[i].times(sigma@[i])
            &&& fsar(i) == l[i].times(sigma@[i]).plus(j_product.times(l[i].times(phi@[i])))
            &&& frot(i) == l[i].times(rot_rows@[i])
        } by {
            lemma_selector_64(rj, rs, i);
            lemma_distr(sigma@[i], j_product.times(phi@[i]), l[i]);
            F::lemma_times(l[i], j_product, phi@[i]);
            F::lemma_times(j_product, l[i], phi@[i]);
        }
        let gsll = |i: int| l[i].times(selector_at(ShiftVariant::Sll32, rj, rs, i));
        let gslr = |i: int| l[i].times(selector_at(ShiftVariant::Srl32, rj, rs, i));
        let gsar = |i: int| l[i].times(selector_at(ShiftVariant::Sra32, rj, rs, i));
        let grot = |i: int| l[i].times(selector_at(ShiftVariant::Rotr32, rj, rs, i));
        assert forall|i: int|
            #![trigger gsll(i)]
            #![trigger gslr(i)]
            #![trigger gsar(i)]
            #![trigger grot(i)]
            0 <= i < 64 implies {
            &&& gsll(i) == l[i].times(rest@[i / 32].times(sigma32_transpose@[i % 32]))
            &&& gslr(i) == l[i].times(rest@[i / 32].times(sigma32@[i % 32]))
            &&& gsar(i) == l[i].times(rest@[i / 32].times(sigma32@[i % 32])).plus(
                j_product32.times(l[i].times(rest@[i / 32].times(phi32@[i % 32]))),
            )
            &&& grot(i) == l[i].times(rest@[i / 32].times(rot32_rows@[i % 32]))
        } by {
            let w = rest@[i / 32];
            let i0 = i % 32;
            lemma_selector_half(ShiftVariant::Sll32, rj, rs, i);
            lemma_selector_half(ShiftVariant::Srl32, rj, rs, i);
            lemma_selector_half(ShiftVariant::Sra32, rj, rs, i);
            lemma_selector_half(ShiftVariant::Rotr32, rj, rs, i);
            lemma_half_selectors(rj.take(5), rs.take(5), i0);
            let (s, p) = (sigma32@[i0], phi32@[i0]);
            let jp = j_product32.times(p);
            lemma_distr(s, jp, w);
            lemma_distr(w.times(s), w.times(jp), l[i]);
            F::lemma_times(w, j_product32, p);
            F::lemma_times(j_product32, w, p);
            F::lemma_times(l[i], j_product32, w.times(p));
            F::lemma_times(j_product32, l[i], w.times(p));
        }
        lemma_sum_ext(fsll, |i: int| l[i].times(sigma_transpose@[i]), 64);
        lemma_sum_ext(fslr, |i: int| l[i].times(sigma@[i]), 64);
        lemma_sum_ext(frot, |i: int| l[i].times(rot_rows@[i]), 64);
        let a = |i: int| l[i].times(sigma@[i]);
        let b = |i: int| l[i].times(phi@[i]);
        let jb = |i: int| j_product.times(b(i));
        lemma_sum_ext(fsar, |i: int| a(i).plus(jb(i)), 64);
        lemma_sum_plus(a, jb, 64);
        lemma_sum_scale(j_product, b, 64);
        lemma_sum_ext(gsll, |i: int| l[i].times(rest@[i / 32].times(sigma32_transpose@[i % 32])), 64);
        lemma_sum_ext(gslr, |i: int| l[i].times(rest@[i / 32].times(sigma32@[i % 32])), 64);
        lemma_sum_ext(grot, |i: int| l[i].times(rest@[i / 32].times(rot32_rows@[i % 32])), 64);
        let c = |i: int| l[i].times(rest@[i / 32].times(sigma32@[i % 32]));
        let d = |i: int| l[i].times(rest@[i / 32].times(phi32@[i % 32]));
        let jd = |i: int| j_product32.times(d(i));
        lemma_sum_ext(gsar, |i: int| c(i).plus(jd(i)), 64);
        lemma_sum_plus(c, jd, 64);
        lemma_sum_scale(j_product32, d, 64);
        assert(selector(ShiftVariant::Sll, l, rj, rs) == sum(fsll, 64));
        assert(selector(ShiftVariant::Slr, l, rj, rs) == sum(fslr, 64));
        assert(selector(ShiftVariant::Sar, l, rj, rs) == sum(fsar, 64));
        assert(selector(ShiftVariant::Rotr, l, rj, rs) == sum(frot, 64));
        assert(selector(ShiftVariant::Sll32, l, rj, rs) == sum(gsll, 64));
        assert(selector(ShiftVariant::Srl32, l, rj, rs) == sum(gslr, 64));
        assert(selector(ShiftVariant::Sra32, l, rj, rs) == sum(gsar, 64));
        assert(selector(ShiftVariant::Rotr32, l, rj, rs) == sum(grot, 64));
    }
    [sll, srl, sra, rotr, sll32, srl32, sra32, rotr32]
}

} // verus!
