//! Laws of the shift indicators at the vertices of the hypercube, for words of any size: each is one
//! exactly where its equation between source bit, target bit and amount holds.
use super::shift_ind::{phi_at, sigma_at, sigma_prime_at, sigma_transpose_at};
use super::shift_laws::indicator;
use crate::field::BinaryField;
use crate::math::multilinear::{bit_point, eq_weight, lemma_eq_weight_vertex};
use crate::math::sums::{keep_if, lemma_sum_single, lemma_zero};
use vstd::arithmetic::power2::pow2;
use vstd::prelude::*;

verus! {

/// With source bit `j` and amount `s`, target bit `i` takes the source bit where `j = i + s`, wraps
/// around where `j = i + s - N`, takes it from the other side where `j = i - s`, and lies in the part
/// that a shift fills where `i + s >= N`.
pub proof fn lemma_indicators_at_vertex<F: BinaryField>(n: nat, i: int, j: int, s: int)
    requires
        0 <= i < pow2(n),
        0 <= j < pow2(n),
        0 <= s < pow2(n),
    ensures
        sigma_at(bit_point::<F>(n, j), bit_point::<F>(n, s), i) == indicator::<F>(j == i + s),
        sigma_prime_at(bit_point::<F>(n, j), bit_point::<F>(n, s), i) == indicator::<F>(
            j + pow2(n) == i + s,
        ),
        sigma_transpose_at(bit_point::<F>(n, j), bit_point::<F>(n, s), i) == indicator::<F>(
            j + s == i,
        ),
        phi_at(bit_point::<F>(n, s), i) == indicator::<F>(i + s >= pow2(n)),
{
    let size = pow2(n);
    let (rj, rs) = (bit_point::<F>(n, j), bit_point::<F>(n, s));
    lemma_eq_weight_vertex::<F>(n, j, j);
    lemma_eq_weight_vertex::<F>(n, s, s);
    let a = |t: int| keep_if(i + t < size, eq_weight(rs, t).times(eq_weight(rj, i + t)));
    let b = |t: int| keep_if(i + t >= size, eq_weight(rs, t).times(eq_weight(rj, i + t - size)));
    let c = |t: int| keep_if(t <= i, eq_weight(rs, t).times(eq_weight(rj, i - t)));
    let d = |t: int| keep_if(i + t >= size, eq_weight(rs, t));
    assert forall|t: int| 0 <= t < size && t != s implies #[trigger] a(t) == F::zero_of() && b(t)
        == F::zero_of() && c(t) == F::zero_of() && d(t) == F::zero_of() by {
        lemma_eq_weight_vertex::<F>(n, s, t);
        lemma_zero(eq_weight(rj, i + t));
        lemma_zero(eq_weight(rj, i + t - size));
        lemma_zero(eq_weight(rj, i - t));
    }
    assert forall|t: int| 0 <= t < size && t != s implies #[trigger] b(t) == F::zero_of() by {
        assert(a(t) == F::zero_of());
    }
    assert forall|t: int| 0 <= t < size && t != s implies #[trigger] c(t) == F::zero_of() by {
        assert(a(t) == F::zero_of());
    }
    assert forall|t: int| 0 <= t < size && t != s implies #[trigger] d(t) == F::zero_of() by {
        assert(a(t) == F::zero_of());
    }
    lemma_sum_single(a, s, size);
    lemma_sum_single(b, s, size);
    lemma_sum_single(c, s, size);
    lemma_sum_single(d, s, size);
    lemma_zero(F::one_of());
    lemma_zero(F::zero_of());
    if i + s < size {
        lemma_eq_weight_vertex::<F>(n, j, i + s);
    } else {
        lemma_eq_weight_vertex::<F>(n, j, i + s - size);
    }
    if s <= i {
        lemma_eq_weight_vertex::<F>(n, j, i - s);
    }
}

} // verus!
