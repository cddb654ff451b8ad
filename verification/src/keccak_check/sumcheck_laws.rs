//! Laws of the sumcheck prover: every round keeps the claim, and binding all variables evaluates
//! the tables at the challenges.
use super::batch::{batched_inf, batched_value, BatchedPolynomial, OutputTerm, RoundTerm, Table};
use super::blocks::{
    lemma_output_line, lemma_round_line, line_block, output_value, parabola, round_inf, round_value,
};
use super::sumcheck::{
    claim_of, coeffs_at, interpolated, polynomial_folds, round_at_inf, round_at_one, round_at_zero,
    RoundCoeffs,
};
use crate::field::BinaryField;
use crate::math::multilinear::eq_weight;
use crate::math::poly::lemma_equal;
use crate::math::sums::{
    lemma_distr, lemma_plus_swap, lemma_sum_ext, lemma_sum_plus, lemma_sum_scale, lemma_sum_split,
    lemma_zero, sum,
};
use crate::verify::shift_laws::line;
use vstd::arithmetic::power2::{lemma2_to64, lemma_pow2_unfold, pow2};
use vstd::prelude::*;

verus! {

proof fn lemma_parabola_scale<F: BinaryField>(k: F, a: F, b: F, c: F, t: F)
    ensures
        k.times(parabola(a, b, c, t)) == parabola(k.times(a), k.times(b), k.times(c), t),
        k.times(line(a, b, t)) == line(k.times(a), k.times(b), t),
{
    let u = F::one_of().plus(t);
    let w = t.times(t).plus(t);
    lemma_distr(line(a, b, t), w.times(c), k);
    lemma_distr(u.times(a), t.times(b), k);
    F::lemma_times(k, u, a);
    F::lemma_times(u, k, a);
    F::lemma_times(k, t, b);
    F::lemma_times(t, k, b);
    F::lemma_times(k, w, c);
    F::lemma_times(w, k, c);
}

proof fn lemma_parabola_plus<F: BinaryField>(a: F, b: F, c: F, d: F, e: F, f: F, t: F)
    ensures
        parabola(a, b, c, t).plus(parabola(d, e, f, t)) == parabola(
            a.plus(d),
            b.plus(e),
            c.plus(f),
            t,
        ),
        parabola(a, b, c, t).plus(line(d, e, t)) == parabola(a.plus(d), b.plus(e), c, t),
{
    let u = F::one_of().plus(t);
    let w = t.times(t).plus(t);
    let (l, m) = (line(a, b, t), line(d, e, t));
    lemma_plus_swap(l, w.times(c), m, w.times(f));
    lemma_distr(c, f, w);
    lemma_plus_swap(u.times(a), t.times(b), u.times(d), t.times(e));
    lemma_distr(a, d, u);
    lemma_distr(b, e, t);
    F::lemma_plus(l, w.times(c), m);
    F::lemma_plus(w.times(c), m, m);
    F::lemma_plus(l, m, w.times(c));
}

/// A sum of parabolas is the parabola of the sums.
pub proof fn lemma_sum_parabola<F: BinaryField>(
    f: spec_fn(int) -> F,
    a: spec_fn(int) -> F,
    b: spec_fn(int) -> F,
    c: spec_fn(int) -> F,
    t: F,
    n: nat,
)
    requires
        forall|i: int| 0 <= i < n ==> #[trigger] f(i) == parabola(a(i), b(i), c(i), t),
    ensures
        sum(f, n) == parabola(sum(a, n), sum(b, n), sum(c, n), t),
    decreases n,
{
    if n == 0 {
        let u = F::one_of().plus(t);
        lemma_zero(u);
        lemma_zero(t);
        lemma_zero(t.times(t).plus(t));
        lemma_zero(F::zero_of());
    } else {
        let m = (n - 1) as nat;
        lemma_sum_parabola(f, a, b, c, t, m);
        assert(f(m as int) == parabola(a(m as int), b(m as int), c(m as int), t));
        lemma_parabola_plus(
            sum(a, m),
            sum(b, m),
            sum(c, m),
            a(m as int),
            b(m as int),
            c(m as int),
            t,
        );
    }
}

/// Along the lines between two families of blocks a batched polynomial is a parabola.
pub proof fn lemma_batched_line<F: BinaryField>(
    lo: spec_fn(int) -> Seq<F>,
    hi: spec_fn(int) -> Seq<F>,
    mid: spec_fn(int) -> Seq<F>,
    rounds: Seq<RoundTerm<F>>,
    outs: Seq<OutputTerm<F>>,
    bw: Seq<F>,
    t: F,
    n_tables: int,
)
    requires
        forall|k: int| 0 <= k < n_tables ==> #[trigger] mid(k) == line_block(lo(k), hi(k), t),
        forall|k: int| 0 <= k < rounds.len() ==> (#[trigger] rounds[k]).table < n_tables,
        forall|k: int| 0 <= k < outs.len() ==> (#[trigger] outs[k]).table < n_tables,
    ensures
        batched_value(mid, rounds, outs, bw) == parabola(
            batched_value(lo, rounds, outs, bw),
            batched_value(hi, rounds, outs, bw),
            batched_inf(lo, hi, rounds, bw),
            t,
        ),
{
    let rm = |k: int|
        rounds[k].coeff.times(
            round_value(
                mid(rounds[k].table as int),
                rounds[k].lane_weights@,
                rounds[k].round as int,
                bw,
            ),
        );
    let r0 = |k: int|
        rounds[k].coeff.times(
            round_value(
                lo(rounds[k].table as int),
                rounds[k].lane_weights@,
                rounds[k].round as int,
                bw,
            ),
        );
    let r1 = |k: int|
        rounds[k].coeff.times(
            round_value(
                hi(rounds[k].table as int),
                rounds[k].lane_weights@,
                rounds[k].round as int,
                bw,
            ),
        );
    let ri = |k: int|
        rounds[k].coeff.times(
            round_inf(
                lo(rounds[k].table as int),
                hi(rounds[k].table as int),
                rounds[k].lane_weights@,
                bw,
            ),
        );
    assert forall|k: int| 0 <= k < rounds.len() implies #[trigger] rm(k) == parabola(
        r0(k),
        r1(k),
        ri(k),
        t,
    ) by {
        let term = rounds[k];
        let b = term.table as int;
        assert(mid(b) == line_block(lo(b), hi(b), t));
        lemma_round_line(lo(b), hi(b), t, term.lane_weights@, term.round as int, bw);
        lemma_parabola_scale(
            term.coeff,
            round_value(lo(b), term.lane_weights@, term.round as int, bw),
            round_value(hi(b), term.lane_weights@, term.round as int, bw),
            round_inf(lo(b), hi(b), term.lane_weights@, bw),
            t,
        );
    }
    lemma_sum_parabola(rm, r0, r1, ri, t, rounds.len());
    let om = |k: int|
        outs[k].coeff.times(output_value(mid(outs[k].table as int), outs[k].lane_weights@, bw));
    let o0 = |k: int|
        outs[k].coeff.times(output_value(lo(outs[k].table as int), outs[k].lane_weights@, bw));
    let o1 = |k: int|
        outs[k].coeff.times(output_value(hi(outs[k].table as int), outs[k].lane_weights@, bw));
    let zero = |k: int| F::zero_of();
    assert forall|k: int| 0 <= k < outs.len() implies #[trigger] om(k) == parabola(
        o0(k),
        o1(k),
        zero(k),
        t,
    ) by {
        let term = outs[k];
        let b = term.table as int;
        assert(mid(b) == line_block(lo(b), hi(b), t));
        lemma_output_line(lo(b), hi(b), t, term.lane_weights@, bw);
        lemma_parabola_scale(
            term.coeff,
            output_value(lo(b), term.lane_weights@, bw),
            output_value(hi(b), term.lane_weights@, bw),
            F::zero_of(),
            t,
        );
        lemma_zero(t.times(t).plus(t));
        lemma_zero(om(k));
    }
    lemma_sum_parabola(om, o0, o1, zero, t, outs.len());
    crate::math::sums::lemma_sum_zero(zero, outs.len());
    lemma_parabola_plus(
        sum(r0, rounds.len()),
        sum(r1, rounds.len()),
        sum(ri, rounds.len()),
        sum(o0, outs.len()),
        sum(o1, outs.len()),
        F::zero_of(),
        t,
    );
    lemma_zero(sum(ri, rounds.len()));
}

/// The claim is the line between the round polynomial's values at zero and one.
pub proof fn lemma_claim_splits<F: BinaryField>(poly: BatchedPolynomial<F>, point: Seq<F>)
    requires
        point.len() > 0,
    ensures
        claim_of(poly, point) == line(
            round_at_zero(poly, point),
            round_at_one(poly, point),
            point.last(),
        ),
{
    let low = point.drop_last();
    let half = pow2(low.len());
    let alpha = point.last();
    let u = F::one_of().plus(alpha);
    lemma_pow2_unfold(point.len());
    let f = |i: int| eq_weight(point, i).times(poly.value(i));
    lemma_sum_split(f, half, half);
    let f0 = |i: int| eq_weight(low, i).times(poly.value(i));
    let f1 = |i: int| eq_weight(low, i).times(poly.value(half + i));
    assert forall|i: int| 0 <= i < half implies #[trigger] f(i) == u.times(f0(i)) by {
        let w = eq_weight(low, i);
        F::lemma_times(w, u, poly.value(i));
        F::lemma_times(u, poly.value(i), w);
        F::lemma_times(u, w, poly.value(i));
    }
    let fh = |i: int| f(half + i);
    assert forall|i: int| 0 <= i < half implies #[trigger] fh(i) == alpha.times(f1(i)) by {
        let w = eq_weight(low, i);
        assert(half + i - half == i);
        F::lemma_times(w, alpha, poly.value(half + i));
        F::lemma_times(alpha, w, poly.value(half + i));
    }
    lemma_sum_ext(f, |i: int| u.times(f0(i)), half);
    lemma_sum_ext(fh, |i: int| alpha.times(f1(i)), half);
    lemma_sum_scale(u, f0, half);
    lemma_sum_scale(alpha, f1, half);
}

/// The claim after binding the highest variable to `t` is the parabola of the round polynomial
/// at `t`.
pub proof fn lemma_folded_claim<F: BinaryField>(
    pre: BatchedPolynomial<F>,
    post: BatchedPolynomial<F>,
    point: Seq<F>,
    t: F,
)
    requires
        point.len() > 0,
        pre.wf(pow2(point.len())),
        polynomial_folds(pre, post, t),
    ensures
        claim_of(post, point.drop_last()) == parabola(
            round_at_zero(pre, point),
            round_at_one(pre, point),
            round_at_inf(pre, point),
            t,
        ),
{
    let low = point.drop_last();
    let half = pow2(low.len());
    lemma_pow2_unfold(point.len());
    let f = |i: int| eq_weight(low, i).times(post.value(i));
    let f0 = |i: int| eq_weight(low, i).times(pre.value(i));
    let f1 = |i: int| eq_weight(low, i).times(pre.value(half + i));
    let fi = |i: int| eq_weight(low, i).times(pre.inf(i, half + i));
    assert forall|i: int| 0 <= i < half implies #[trigger] f(i) == parabola(f0(i), f1(i), fi(i), t)
        by {
        let (lo, hi, mid) = (pre.blocks_at(i), pre.blocks_at(half + i), post.blocks_at(i));
        assert forall|k: int| 0 <= k < pre.tables@.len() implies #[trigger] mid(k) == line_block(
            lo(k),
            hi(k),
            t,
        ) by {
            assert(pre.tables@[k].size() == 2 * half);
            assert(pre.tables@[k].folds_to(post.tables@[k], t));
        }
        lemma_batched_line(
            lo,
            hi,
            mid,
            pre.round_terms@,
            pre.output_terms@,
            pre.bit_weights@,
            t,
            pre.tables@.len() as int,
        );
        lemma_parabola_scale(
            eq_weight(low, i),
            pre.value(i),
            pre.value(half + i),
            pre.inf(i, half + i),
            t,
        );
    }
    lemma_sum_parabola(f, f0, f1, fi, t, half);
}

/// A quadratic with the coefficients of its values at zero and one and its leading coefficient is
/// the parabola through them.
pub proof fn lemma_coeffs_are_parabola<F: BinaryField>(y_0: F, y_1: F, y_inf: F, t: F)
    ensures
        coeffs_at(
            (RoundCoeffs { c0: y_0, c1: y_1.plus(y_0).plus(y_inf), c2: y_inf }),
            t,
        ) == parabola(y_0, y_1, y_inf, t),
{
    let one = F::one_of();
    let tt = t.times(t);
    // t (y1 + y0 + yi + t yi) = t y1 + t y0 + t yi + tt yi
    let s = y_1.plus(y_0);
    lemma_distr(s.plus(y_inf), t.times(y_inf), t);
    lemma_distr(s, y_inf, t);
    lemma_distr(y_1, y_0, t);
    F::lemma_times(t, t, y_inf);
    lemma_distr(one, t, y_0);
    lemma_zero(y_0);
    lemma_distr(tt, t, y_inf);
    let (a, b, c, d) = (t.times(y_1), t.times(y_0), t.times(y_inf), tt.times(y_inf));
    // y0 + (((a + b) + c) + d) = ((y0 + b) + a) + (d + c)
    F::lemma_plus(a.plus(b), c, d);
    F::lemma_plus(c, d, d);
    F::lemma_plus(y_0, a.plus(b), c.plus(d));
    F::lemma_plus(a, b, b);
    F::lemma_plus(y_0, b, a);
}

/// Every round keeps the claim: where the prover's claim is the multilinear extension of its
/// polynomial, and the coordinate to be bound is not one (so that `1 + alpha` has an inverse), the
/// claim after the challenge is that of the polynomial with the variable bound.
pub proof fn lemma_round_keeps_claim<F: BinaryField>(
    pre: BatchedPolynomial<F>,
    post: BatchedPolynomial<F>,
    point: Seq<F>,
    t: F,
)
    requires
        point.len() > 0,
        pre.wf(pow2(point.len())),
        polynomial_folds(pre, post, t),
        point.last() != F::one_of(),
    ensures
        coeffs_at(
            interpolated(
                claim_of(pre, point),
                point.last(),
                round_at_one(pre, point),
                round_at_inf(pre, point),
            ),
            t,
        ) == claim_of(post, point.drop_last()),
{
    let alpha = point.last();
    let u = F::one_of().plus(alpha);
    let inv = u.inverted();
    let (p0, p1, pi) = (
        round_at_zero(pre, point),
        round_at_one(pre, point),
        round_at_inf(pre, point),
    );
    lemma_claim_splits(pre, point);
    lemma_equal(F::one_of(), alpha);
    F::lemma_inverse(u);
    // y0 = ((u p0 + alpha p1) + alpha p1) / u = p0
    F::lemma_plus(u.times(p0), alpha.times(p1), alpha.times(p1));
    F::lemma_plus(alpha.times(p1), alpha.times(p1), alpha.times(p1));
    lemma_zero(u.times(p0));
    F::lemma_times(u.times(p0), inv, inv);
    F::lemma_times(inv, u, p0);
    F::lemma_times(u, inv, inv);
    lemma_zero(p0);
    lemma_coeffs_are_parabola(p0, p1, pi, t);
    lemma_folded_claim(pre, post, point, t);
}

/// A round polynomial that the prover interpolates has the given value at one and agrees with the
/// claim that it is for, where the coordinate is not one.
pub proof fn lemma_interpolated_agrees<F: BinaryField>(claim: F, alpha: F, y_1: F, y_inf: F)
    requires
        alpha != F::one_of(),
    ensures
        coeffs_at(interpolated(claim, alpha, y_1, y_inf), F::one_of()) == y_1,
        line(
            coeffs_at(interpolated(claim, alpha, y_1, y_inf), F::zero_of()),
            coeffs_at(interpolated(claim, alpha, y_1, y_inf), F::one_of()),
            alpha,
        ) == claim,
{
    let (zero, one) = (F::zero_of(), F::one_of());
    let u = one.plus(alpha);
    let ay = alpha.times(y_1);
    let y_0 = claim.plus(ay).times(u.inverted());
    let p = interpolated(claim, alpha, y_1, y_inf);
    lemma_equal(one, alpha);
    F::lemma_inverse(u);
    // p(0) = y0
    lemma_zero(p.c1.plus(zero.times(p.c2)));
    lemma_zero(y_0);
    assert(coeffs_at(p, zero) == y_0);
    // p(1) = y0 + ((y1 + y0 + yi) + yi) = y1
    lemma_zero(p.c2);
    lemma_zero(p.c1.plus(p.c2));
    F::lemma_plus(y_1.plus(y_0), y_inf, y_inf);
    F::lemma_plus(y_inf, y_inf, y_inf);
    lemma_zero(y_1.plus(y_0));
    F::lemma_plus(y_0, y_1.plus(y_0), y_0);
    F::lemma_plus(y_1, y_0, y_0);
    F::lemma_plus(y_0, y_0, y_0);
    lemma_zero(y_1);
    assert(coeffs_at(p, one) == y_1);
    // u * y0 = claim + alpha * y1
    F::lemma_times(u, claim.plus(ay), u.inverted());
    F::lemma_times(claim.plus(ay), u, u.inverted());
    lemma_zero(claim.plus(ay));
    F::lemma_plus(claim, ay, ay);
    F::lemma_plus(ay, ay, ay);
    lemma_zero(claim);
}

/// The entries of a table's multilinear extension at a point.
pub open spec fn table_at<F: BinaryField>(t: Table<F>, point: Seq<F>) -> Seq<F> {
    Seq::new(
        1600,
        |j: int| sum(|i: int| eq_weight(point, i).times(t.block(i)[j]), pow2(point.len())),
    )
}

/// Binding the highest variable and evaluating the rest is evaluating at the whole point.
pub proof fn lemma_table_fold<F: BinaryField>(pre: Table<F>, post: Table<F>, low: Seq<F>, t: F)
    requires
        pre.size() == pow2(low.len() + 1),
        pre.folds_to(post, t),
    ensures
        table_at(post, low) == table_at(pre, low.push(t)),
{
    let point = low.push(t);
    let half = pow2(low.len());
    lemma_pow2_unfold(point.len());
    assert(point.drop_last() =~= low);
    let u = F::one_of().plus(t);
    assert forall|j: int| 0 <= j < 1600 implies table_at(post, low)[j] == table_at(pre, point)[j] by {
        let f = |i: int| eq_weight(point, i).times(pre.block(i)[j]);
        let g = |i: int| eq_weight(low, i).times(post.block(i)[j]);
        lemma_sum_split(f, half, half);
        let fh = |i: int| f(half + i);
        assert forall|i: int| 0 <= i < half implies #[trigger] g(i) == f(i).plus(fh(i)) by {
            let w = eq_weight(low, i);
            let (a, b) = (pre.block(i)[j], pre.block(half + i)[j]);
            assert(post.block(i) == line_block(pre.block(i), pre.block(half + i), t));
            lemma_distr(u.times(a), t.times(b), w);
            F::lemma_times(w, u, a);
            F::lemma_times(w, t, b);
            assert(half + i - half == i);
        }
        lemma_sum_ext(g, |i: int| f(i).plus(fh(i)), half);
        lemma_sum_plus(f, fh, half);
    }
    assert(table_at(post, low) =~= table_at(pre, point));
}

/// A table of one state evaluates to that state.
pub proof fn lemma_table_single<F: BinaryField>(t: Table<F>)
    requires
        t.wf(),
        t.size() == 1,
    ensures
        table_at(t, Seq::empty()) == t.block(0),
{
    lemma2_to64();
    assert(t.block(0).len() == 1600);
    let point = Seq::<F>::empty();
    assert forall|j: int| 0 <= j < 1600 implies table_at(t, point)[j] == t.block(0)[j] by {
        let f = |i: int| eq_weight(point, i).times(t.block(i)[j]);
        assert(sum(f, 1) == sum(f, 0).plus(f(0)));
        lemma_zero(t.block(0)[j]);
        lemma_zero(f(0));
    }
    assert(table_at(t, point) =~= t.block(0));
}

} // verus!
