//! The domain that indexes the bits of a lane.
use super::claims::folded_table;
use crate::field::{BinaryField, BinaryField128bGhash, B128};
use crate::math::lagrange::{
    lagrange_evals_scalars, lagrange_of, lemma_lagrange_one, lemma_lagrange_vanishes,
};
use crate::math::subspace::{
    canonical_basis, lemma_canonical_points, lemma_canonical_points_differ, subspace_points,
    BinarySubspace,
};
use crate::math::sums::{lemma_sum_single, lemma_zero};
use vstd::arithmetic::power2::lemma2_to64;
use vstd::prelude::*;

verus! {

/// The Lagrange polynomials of the 64 bit positions at a challenge.
pub open spec fn bit_weights_of<F: BinaryField>(bit_challenge: F) -> Seq<F> {
    lagrange_of(subspace_points(canonical_basis::<F>(6)), bit_challenge)
}

/// Computes the weights of the 64 bit positions at a challenge.
pub fn bit_lagrange_weights<F: BinaryField>(bit_challenge: F) -> (r: [F; 64])
    ensures
        r@ == bit_weights_of(bit_challenge),
{
    proof {
        F::lemma_degree();
        lemma2_to64();
    }
    let subspace = BinarySubspace::<F>::with_dim(6);
    let evals = lagrange_evals_scalars(&subspace, bit_challenge);
    let mut r: [F; 64] = [F::zero(); 64];
    for i in 0..64
        invariant
            evals@.len() == 64,
            forall|k: int| 0 <= k < i ==> #[trigger] r[k] == evals@[k],
    {
        r[i] = evals[i];
    }
    assert(r@ =~= evals@);
    r
}

/// At the domain point of a bit position the weights select that position.
pub proof fn lemma_bit_weights_select(i: int, j: int)
    requires
        0 <= i < 64,
        0 <= j < 64,
    ensures
        bit_weights_of(BinaryField128bGhash(i as u128))[j] == (if i == j {
            B128::one_of()
        } else {
            B128::zero_of()
        }),
{
    let xs = subspace_points(canonical_basis::<B128>(6));
    lemma2_to64();
    lemma_canonical_points(6, i);
    lemma_canonical_points_differ(6);
    assert(xs[i] == BinaryField128bGhash(i as u128));
    if i == j {
        lemma_lagrange_one(xs, j);
    } else {
        lemma_lagrange_vanishes(xs, j, i);
    }
}

/// Folding a table at the domain point of a bit position selects the entries of that position.
pub proof fn lemma_folded_table_selects(table: Seq<B128>, i: int, k: int)
    requires
        0 <= i < 64,
        0 <= k < table.len() / 64,
    ensures
        folded_table(table, bit_weights_of(BinaryField128bGhash(i as u128)))[k] == table[64 * k + i],
{
    let w = bit_weights_of(BinaryField128bGhash(i as u128));
    let f = |bit: int| table[64 * k + bit].times(w[bit]);
    assert forall|bit: int| 0 <= bit < 64 && bit != i implies #[trigger] f(bit)
        == B128::zero_of() by {
        lemma_bit_weights_select(i, bit);
        lemma_zero(table[64 * k + bit]);
    }
    lemma_sum_single(f, i, 64);
    lemma_bit_weights_select(i, i);
    lemma_zero(table[64 * k + i]);
}

} // verus!
