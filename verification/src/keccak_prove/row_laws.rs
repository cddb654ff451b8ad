//! Laws of the row evaluations: what the selector of the active rows, the round constants and a column
//! of words are at the point of a row; and of the layout of a batch.
use super::constants::ROUND_CONSTANTS;
use super::shift_claims::layout_of;
use super::shift_evals::{active_rows, chi_row, column_eval, fold_word, iota_eval};
use crate::constraint_system::{ceil_log2, ceil_pow2, lemma_ceil_pow2};
use crate::field::BinaryField;
use crate::math::multilinear::{bit_point, eq_weight, lemma_eq_weight_vertex};
use crate::math::sums::{lemma_sum_single, lemma_sum_zero, lemma_zero};
use crate::verify::repeated_monster::is_pow2;
use vstd::arithmetic::power2::pow2;
use vstd::prelude::*;

verus! {

/// At the point of a row the selector is one where the row is active, and zero elsewhere.
pub proof fn lemma_active_at_row<F: BinaryField>(rows: nat, n: nat, row: int)
    requires
        0 <= row < pow2(n),
        rows <= pow2(n),
    ensures
        active_rows(rows, bit_point::<F>(n, row)) == (if row < rows {
            F::one_of()
        } else {
            F::zero_of()
        }),
{
    let r_x = bit_point::<F>(n, row);
    let f = |k: int| eq_weight(r_x, k);
    assert forall|k: int| 0 <= k < rows && k != row implies #[trigger] f(k) == F::zero_of() by {
        lemma_eq_weight_vertex::<F>(n, row, k);
    }
    if row < rows {
        lemma_sum_single(f, row, rows);
        lemma_eq_weight_vertex::<F>(n, row, row);
    } else {
        lemma_sum_zero(f, rows);
    }
}

/// At the point of a row a column evaluates to the folded word of that row.
pub proof fn lemma_column_at_row<F: BinaryField>(words: Seq<u64>, n: nat, row: int, l: Seq<F>)
    requires
        0 <= row < words.len() <= pow2(n),
    ensures
        column_eval(words, bit_point::<F>(n, row), l) == fold_word(words[row], l),
{
    let r_x = bit_point::<F>(n, row);
    let f = |k: int| eq_weight(r_x, k).times(fold_word(words[k], l));
    assert forall|k: int| 0 <= k < words.len() && k != row implies #[trigger] f(k)
        == F::zero_of() by {
        lemma_eq_weight_vertex::<F>(n, row, k);
        lemma_zero(fold_word(words[k], l));
    }
    lemma_sum_single(f, row, words.len());
    lemma_eq_weight_vertex::<F>(n, row, row);
    lemma_zero(fold_word(words[row], l));
}

/// At the point of row `600 p + 25 r + lane` the round constants evaluate to the constant of round
/// `r` where the lane is the first, and to zero elsewhere, for every permutation `p` of the batch.
pub proof fn lemma_iota_at_row<F: BinaryField>(
    n_permutations: nat,
    n: nat,
    p: int,
    r: int,
    lane: int,
    l: Seq<F>,
)
    requires
        600 * n_permutations <= pow2(n),
        0 <= p < n_permutations,
        0 <= r < 24,
        0 <= lane < 25,
    ensures
        iota_eval(n_permutations, bit_point::<F>(n, 600 * p + 25 * r + lane), l) == (if lane == 0 {
            fold_word(ROUND_CONSTANTS[r], l)
        } else {
            F::zero_of()
        }),
{
    let row = 600 * p + 25 * r + lane;
    let r_x = bit_point::<F>(n, row);
    let f = |k: int|
        eq_weight(r_x, chi_row(k / 24, k % 24, 0)).times(fold_word(ROUND_CONSTANTS[k % 24], l));
    let at = 24 * p + r;
    let total = 24 * n_permutations;
    assert(at / 24 == p && at % 24 == r);
    assert forall|k: int| 0 <= k < total && !(lane == 0 && k == at) implies #[trigger] f(k)
        == F::zero_of() by {
        let other = chi_row(k / 24, k % 24, 0);
        assert(other == 25 * k);
        assert(other != row);
        lemma_eq_weight_vertex::<F>(n, row, other);
        lemma_zero(fold_word(ROUND_CONSTANTS[k % 24], l));
    }
    if lane == 0 {
        lemma_sum_single(f, at, total);
        lemma_eq_weight_vertex::<F>(n, row, row);
        lemma_zero(fold_word(ROUND_CONSTANTS[r], l));
    } else {
        lemma_sum_zero(f, total);
    }
}

/// The parts of a layout add up: the public part, the witness of 800 words for each permutation and the
/// padding fill the committed length, which is a power of two and less than twice what they need.
pub proof fn lemma_layout_adds_up(base: nat, n_const: nat, n: nat)
    requires
        n_const <= base,
        1 < base + 800 * n <= usize::MAX / 2,
    ensures
        ({
            let l = layout_of(base, n_const, n);
            &&& l.n_const == n_const
            &&& l.n_witness == 800 * n
            &&& l.offset_witness == base
            &&& l.offset_witness + l.n_witness + l.n_internal == l.committed_total_len
            &&& is_pow2(l.committed_total_len as nat)
            &&& l.committed_total_len < 2 * (base + 800 * n)
        }),
{
    let need = base + 800 * n;
    lemma_ceil_pow2(need);
    assert(ceil_pow2(need) == pow2(ceil_log2(need)));
}

} // verus!
