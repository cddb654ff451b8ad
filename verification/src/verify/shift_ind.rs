//! Partial evaluations of the shift indicators: at a point of the source bit and the shift
//! amount, one value per target bit.
use crate::field::BinaryField;
use crate::math::multilinear::{eq_ind_partial_eval_scalars, eq_weight, eq_weights};
use crate::math::sums::{lemma_zero, sum, keep_if};
use vstd::arithmetic::power2::pow2;
use vstd::prelude::*;

verus! {

/// The weight of `source = target + amount`.
pub open spec fn sigma_at<F: BinaryField>(r_j: Seq<F>, r_s: Seq<F>, i: int) -> F {
    let n = pow2(r_j.len());
    sum(|s: int| keep_if(i + s < n, eq_weight(r_s, s).times(eq_weight(r_j, i + s))), n)
}

/// The weight of `source = target + amount - N`, where `N` is the word size.
pub open spec fn sigma_prime_at<F: BinaryField>(r_j: Seq<F>, r_s: Seq<F>, i: int) -> F {
    let n = pow2(r_j.len());
    sum(|s: int| keep_if(i + s >= n, eq_weight(r_s, s).times(eq_weight(r_j, i + s - n))), n)
}

/// The weight of `source = target - amount`.
pub open spec fn sigma_transpose_at<F: BinaryField>(r_j: Seq<F>, r_s: Seq<F>, i: int) -> F {
    let n = pow2(r_j.len());
    sum(|s: int| keep_if(s <= i, eq_weight(r_s, s).times(eq_weight(r_j, i - s))), n)
}

/// The weight of `target + amount >= N`, where `N` is the word size.
pub open spec fn phi_at<F: BinaryField>(r_s: Seq<F>, i: int) -> F {
    let n = pow2(r_s.len());
    sum(|s: int| keep_if(i + s >= n, eq_weight(r_s, s)), n)
}

/// Evaluates `sigma_at` and `sigma_prime_at` at every target bit.
pub fn partial_eval_sigmas<F: BinaryField>(r_j: &[F], r_s: &[F]) -> (r: (Vec<F>, Vec<F>))
    requires
        r_j@.len() == r_s@.len(),
        2 * pow2(r_j@.len()) <= usize::MAX,
    ensures
        r.0@ == Seq::new(pow2(r_j@.len()), |i: int| sigma_at(r_j@, r_s@, i)),
        r.1@ == Seq::new(pow2(r_j@.len()), |i: int| sigma_prime_at(r_j@, r_s@, i)),
{
    let wj = eq_ind_partial_eval_scalars(r_j);
    let ws = eq_ind_partial_eval_scalars(r_s);
    let n: usize = wj.len();
    let mut sigma: Vec<F> = Vec::new();
    let mut sigma_prime: Vec<F> = Vec::new();
    for i in 0..n
        invariant
            n == pow2(r_j@.len()),
            n == pow2(r_s@.len()),
            2 * n <= usize::MAX,
            wj@ == eq_weights(r_j@),
            ws@ == eq_weights(r_s@),
            sigma@.len() == i,
            sigma_prime@.len() == i,
            forall|k: int| 0 <= k < i ==> #[trigger] sigma@[k] == sigma_at(r_j@, r_s@, k),
            forall|k: int|
                0 <= k < i ==> #[trigger] sigma_prime@[k] == sigma_prime_at(r_j@, r_s@, k),
    {
        let ghost f = |s: int|
            keep_if(i + s < n, eq_weight(r_s@, s).times(eq_weight(r_j@, i + s)));
        let ghost g = |s: int|
            keep_if(i + s >= n, eq_weight(r_s@, s).times(eq_weight(r_j@, i + s - n)));
        let mut acc = F::zero();
        let mut acc_prime = F::zero();
        for s in 0..n
            invariant
                i < n,
                n == pow2(r_j@.len()),
                2 * n <= usize::MAX,
                wj@ == eq_weights(r_j@),
                ws@ == eq_weights(r_s@),
                ws@.len() == n,
                f == (|s: int|
                    keep_if(i + s < n, eq_weight(r_s@, s).times(eq_weight(r_j@, i + s)))),
                g == (|s: int|
                    keep_if(i + s >= n, eq_weight(r_s@, s).times(eq_weight(r_j@, i + s - n)))),
                acc == sum(f, s as nat),
                acc_prime == sum(g, s as nat),
        {
            proof {
                lemma_zero(acc);
                lemma_zero(acc_prime);
                assert(sum(f, (s + 1) as nat) == sum(f, s as nat).plus(f(s as int)));
                assert(sum(g, (s + 1) as nat) == sum(g, s as nat).plus(g(s as int)));
            }
            if i + s < n {
                acc = acc.add(ws[s].mul(wj[i + s]));
            } else {
                acc_prime = acc_prime.add(ws[s].mul(wj[i + s - n]));
            }
        }
        sigma.push(acc);
        sigma_prime.push(acc_prime);
    }
    assert(sigma@ =~= Seq::new(pow2(r_j@.len()), |i: int| sigma_at(r_j@, r_s@, i)));
    assert(sigma_prime@ =~= Seq::new(pow2(r_j@.len()), |i: int| sigma_prime_at(r_j@, r_s@, i)));
    (sigma, sigma_prime)
}

/// Evaluates `sigma_transpose_at` at every target bit.
pub fn partial_eval_sigmas_transpose<F: BinaryField>(r_j: &[F], r_s: &[F]) -> (r: Vec<F>)
    requires
        r_j@.len() == r_s@.len(),
        2 * pow2(r_j@.len()) <= usize::MAX,
    ensures
        r@ == Seq::new(pow2(r_j@.len()), |i: int| sigma_transpose_at(r_j@, r_s@, i)),
{
    let wj = eq_ind_partial_eval_scalars(r_j);
    let ws = eq_ind_partial_eval_scalars(r_s);
    let n: usize = wj.len();
    let mut out: Vec<F> = Vec::new();
    for i in 0..n
        invariant
            n == pow2(r_j@.len()),
            n == pow2(r_s@.len()),
            wj@ == eq_weights(r_j@),
            ws@ == eq_weights(r_s@),
            out@.len() == i,
            forall|k: int| 0 <= k < i ==> #[trigger] out@[k] == sigma_transpose_at(r_j@, r_s@, k),
    {
        let ghost f = |s: int| keep_if(s <= i, eq_weight(r_s@, s).times(eq_weight(r_j@, i - s)));
        let mut acc = F::zero();
        for s in 0..n
            invariant
                i < n,
                n == pow2(r_j@.len()),
                wj@ == eq_weights(r_j@),
                ws@ == eq_weights(r_s@),
                ws@.len() == n,
                f == (|s: int|
                    keep_if(s <= i, eq_weight(r_s@, s).times(eq_weight(r_j@, i - s)))),
                acc == sum(f, s as nat),
        {
            proof {
                lemma_zero(acc);
                assert(sum(f, (s + 1) as nat) == sum(f, s as nat).plus(f(s as int)));
            }
            if s <= i {
                acc = acc.add(ws[s].mul(wj[i - s]));
            }
        }
        out.push(acc);
    }
    assert(out@ =~= Seq::new(pow2(r_j@.len()), |i: int| sigma_transpose_at(r_j@, r_s@, i)));
    out
}

/// Evaluates `phi_at` at every target bit.
pub fn partial_eval_phi<F: BinaryField>(r_s: &[F]) -> (r: Vec<F>)
    requires
        2 * pow2(r_s@.len()) <= usize::MAX,
    ensures
        r@ == Seq::new(pow2(r_s@.len()), |i: int| phi_at(r_s@, i)),
{
    let ws = eq_ind_partial_eval_scalars(r_s);
    let n: usize = ws.len();
    let mut out: Vec<F> = Vec::new();
    for i in 0..n
        invariant
            n == pow2(r_s@.len()),
            2 * n <= usize::MAX,
            ws@ == eq_weights(r_s@),
            out@.len() == i,
            forall|k: int| 0 <= k < i ==> #[trigger] out@[k] == phi_at(r_s@, k),
    {
        let ghost f = |s: int| keep_if(i + s >= n, eq_weight(r_s@, s));
        let mut acc = F::zero();
        for s in 0..n
            invariant
                i < n,
                2 * n <= usize::MAX,
                ws@ == eq_weights(r_s@),
                ws@.len() == n,
                f == (|s: int| keep_if(i + s >= n, eq_weight(r_s@, s))),
                acc == sum(f, s as nat),
        {
            proof {
                lemma_zero(acc);
                assert(sum(f, (s + 1) as nat) == sum(f, s as nat).plus(f(s as int)));
            }
            if i + s >= n {
                acc = acc.add(ws[s]);
            }
        }
        out.push(acc);
    }
    assert(out@ =~= Seq::new(pow2(r_s@.len()), |i: int| phi_at(r_s@, i)));
    out
}

} // verus!
