//! The transparent parts of the chi operand evaluations: the complement of the first factor and
//! the round constants of the product, which the committed operands leave out.
use super::constants::{N_ROUNDS, ROUND_CONSTANTS};
use super::shift_claims::{chi_row_count, d_correctness_row_count};
use crate::constraint_system::{ceil_log2, next_power_of_two};
use crate::field::BinaryField;
use crate::math::multilinear::{eq_ind_partial_eval_scalars, eq_weight, eq_weights};
use crate::math::sums::{
    keep_if, lemma_distr, lemma_sum_ext, lemma_sum_plus, lemma_sum_tail, lemma_zero, sum,
};
use crate::verify::repeated_monster::{exact_log2, lemma_pow2_injective};
use crate::verify::shift_laws::bit64;
use vstd::arithmetic::power2::{lemma2_to64, pow2};
use crate::math::lagrange::{lagrange_evals_scalars, lagrange_of};
use crate::math::subspace::{subspace_points, BinarySubspace};
use vstd::prelude::*;

verus! {

/// The weights of the set bits of a word.
pub open spec fn fold_word<F: BinaryField>(word: u64, l: Seq<F>) -> F {
    sum(|i: int| keep_if(bit64(word, i), l[i]), l.len())
}

/// The weights of the first `rows` rows at the point `r_x`.
pub open spec fn active_rows<F: BinaryField>(rows: nat, r_x: Seq<F>) -> F {
    sum(|row: int| eq_weight(r_x, row), rows)
}

/// The row of a lane in the chi rows.
pub open spec fn chi_row(permutation: int, round: int, lane: int) -> int {
    (permutation * 24 + round) * 25 + lane
}

/// The weighted round constants of `n` permutations, one per round, at the rows of lane 0.
pub open spec fn iota_eval<F: BinaryField>(n: nat, r_x: Seq<F>, l: Seq<F>) -> F {
    sum(
        |k: int|
            eq_weight(r_x, chi_row(k / 24, k % 24, 0)).times(
                fold_word(ROUND_CONSTANTS[k % 24], l),
            ),
        24 * n,
    )
}

/// The log row count of the padded chi constraint system.
pub fn chi_constraint_system_log_rows(n_permutations: usize) -> (r: usize)
    requires
        600 * n_permutations <= usize::MAX / 2,
    ensures
        r == ceil_log2((600 * n_permutations) as nat),
{
    let rows: usize = next_power_of_two(chi_row_count(n_permutations));
    let r: usize = exact_log2(rows);
    proof {
        lemma_pow2_injective(r as nat, ceil_log2((600 * n_permutations) as nat));
    }
    r
}

/// The log row count of the padded `D` correctness constraint system.
pub fn d_correctness_constraint_system_log_rows(n_permutations: usize) -> (r: usize)
    requires
        120 * n_permutations <= usize::MAX / 2,
    ensures
        r == ceil_log2((120 * n_permutations) as nat),
{
    let rows: usize = next_power_of_two(d_correctness_row_count(n_permutations));
    let r: usize = exact_log2(rows);
    proof {
        lemma_pow2_injective(r as nat, ceil_log2((120 * n_permutations) as nat));
    }
    r
}

fn chi_constraint_row_index(permutation: usize, round: usize, lane_idx: usize) -> (r: usize)
    requires
        round < 24,
        lane_idx < 25,
        600 * permutation + 600 <= usize::MAX,
    ensures
        r == chi_row(permutation as int, round as int, lane_idx as int),
{
    (permutation * 24 + round) * 25 + lane_idx
}

fn active_row_selector_eval<F: BinaryField>(rows: usize, r_x_prime: &[F]) -> (r: F)
    requires
        pow2(r_x_prime@.len()) <= usize::MAX,
        rows <= pow2(r_x_prime@.len()),
    ensures
        r == active_rows(rows as nat, r_x_prime@),
{
    let w = eq_ind_partial_eval_scalars(r_x_prime);
    let mut acc = F::zero();
    let ghost f = |row: int| eq_weight(r_x_prime@, row);
    for row in 0..rows
        invariant
            w@ == eq_weights(r_x_prime@),
            rows <= w@.len(),
            f == (|row: int| eq_weight(r_x_prime@, row)),
            acc == sum(f, row as nat),
    {
        acc = acc.add(w[row]);
    }
    acc
}

/// Folds a word with the weights of its bits.
pub fn fold_word_with_lagrange<F: BinaryField>(word: u64, lagrange_evals: &[F]) -> (r: F)
    requires
        lagrange_evals@.len() == 64,
    ensures
        r == fold_word(word, lagrange_evals@),
{
    let mut acc = F::zero();
    let ghost l = lagrange_evals@;
    let ghost f = |i: int| keep_if(bit64(word, i), l[i]);
    for i in 0..64
        invariant
            l == lagrange_evals@,
            l.len() == 64,
            f == (|i: int| keep_if(bit64(word, i), l[i])),
            acc == sum(f, i as nat),
    {
        proof {
            lemma_zero(acc);
            assert(sum(f, (i + 1) as nat) == sum(f, i as nat).plus(f(i as int)));
        }
        if (word >> (i as u64)) & 1 == 1 {
            acc = acc.add(lagrange_evals[i]);
        }
    }
    acc
}

/// Evaluates the selector of the active chi rows at the row challenge.
pub fn chi_active_selector_eval<F: BinaryField>(n_permutations: usize, r_x_prime: &[F]) -> (r: F)
    requires
        pow2(r_x_prime@.len()) <= usize::MAX,
        600 * n_permutations <= pow2(r_x_prime@.len()),
    ensures
        r == active_rows((600 * n_permutations) as nat, r_x_prime@),
{
    active_row_selector_eval(chi_row_count(n_permutations), r_x_prime)
}

/// Evaluates the round-constant column of the chi rows at the row challenge, with the bits
/// weighted by the Lagrange evaluations at the univariate challenge.
pub fn chi_iota_eval<F: BinaryField>(
    n_permutations: usize,
    r_zhat_prime: F,
    r_x_prime: &[F],
    subspace: &BinarySubspace<F>,
) -> (r: F)
    requires
        600 * n_permutations <= usize::MAX / 2,
        r_x_prime@.len() == ceil_log2((600 * n_permutations) as nat),
        subspace.basis@.len() == 6,
    ensures
        r == iota_eval(
            n_permutations as nat,
            r_x_prime@,
            lagrange_of(subspace_points(subspace.basis@), r_zhat_prime),
        ),
{
    proof {
        lemma2_to64();
    }
    let bit_evals = lagrange_evals_scalars(subspace, r_zhat_prime);
    chi_iota_eval_with_lagrange(n_permutations, r_x_prime, bit_evals.as_slice())
}

/// Like `chi_iota_eval`, from the Lagrange evaluations of the bits.
fn chi_iota_eval_with_lagrange<F: BinaryField>(
    n_permutations: usize,
    r_x_prime: &[F],
    bit_evals: &[F],
) -> (r: F)
    requires
        600 * n_permutations <= usize::MAX / 2,
        r_x_prime@.len() == ceil_log2((600 * n_permutations) as nat),
        bit_evals@.len() == 64,
    ensures
        r == iota_eval(n_permutations as nat, r_x_prime@, bit_evals@),
{
    let rows: usize = next_power_of_two(chi_row_count(n_permutations));
    let row_weights = eq_ind_partial_eval_scalars(r_x_prime);
    let mut result = F::zero();
    let ghost (rx, l) = (r_x_prime@, bit_evals@);
    let ghost f = |k: int|
        eq_weight(rx, chi_row(k / 24, k % 24, 0)).times(fold_word(ROUND_CONSTANTS[k % 24], l));
    for permutation in 0..n_permutations
        invariant
            rx == r_x_prime@,
            l == bit_evals@,
            l.len() == 64,
            600 * n_permutations <= usize::MAX / 2,
            row_weights@ == eq_weights(rx),
            row_weights@.len() == rows,
            600 * n_permutations <= rows,
            f == (|k: int|
                eq_weight(rx, chi_row(k / 24, k % 24, 0)).times(
                    fold_word(ROUND_CONSTANTS[k % 24], l),
                )),
            result == sum(f, (24 * permutation) as nat),
    {
        for round in 0..N_ROUNDS
            invariant
                permutation < n_permutations,
                rx == r_x_prime@,
                l == bit_evals@,
                l.len() == 64,
                600 * n_permutations <= usize::MAX / 2,
                row_weights@ == eq_weights(rx),
                row_weights@.len() == rows,
                600 * n_permutations <= rows,
                f == (|k: int|
                    eq_weight(rx, chi_row(k / 24, k % 24, 0)).times(
                        fold_word(ROUND_CONSTANTS[k % 24], l),
                    )),
                result == sum(f, (24 * permutation + round) as nat),
        {
            let row_index: usize = chi_constraint_row_index(permutation, round, 0);
            let bits = fold_word_with_lagrange(ROUND_CONSTANTS[round], bit_evals);
            proof {
                let k = 24 * permutation + round;
                assert(k / 24 == permutation && k % 24 == round);
                assert(sum(f, (k + 1) as nat) == sum(f, k as nat).plus(f(k)));
            }
            result = result.add(row_weights[row_index].mul(bits));
        }
    }
    result
}

/// Converts full chi operand evaluations into those of the committed operands.
pub fn witness_only_chi_evals<F: BinaryField>(
    n_permutations: usize,
    r_zhat_prime: F,
    r_x_prime: &[F],
    subspace: &BinarySubspace<F>,
    p_eval: F,
    q_eval: F,
    c_eval: F,
) -> (r: [F; 3])
    requires
        600 * n_permutations <= usize::MAX / 2,
        r_x_prime@.len() == ceil_log2((600 * n_permutations) as nat),
        subspace.basis@.len() == 6,
    ensures
        r@ == seq![
            p_eval.plus(active_rows((600 * n_permutations) as nat, r_x_prime@)),
            q_eval,
            c_eval.plus(
                iota_eval(
                    n_permutations as nat,
                    r_x_prime@,
                    lagrange_of(subspace_points(subspace.basis@), r_zhat_prime),
                ),
            ),
        ],
{
    let rows: usize = next_power_of_two(chi_row_count(n_permutations));
    let active = chi_active_selector_eval(n_permutations, r_x_prime);
    let iota = chi_iota_eval(n_permutations, r_zhat_prime, r_x_prime, subspace);
    let r: [F; 3] = [p_eval.add(active), q_eval, c_eval.add(iota)];
    assert(r@ =~= seq![p_eval.plus(active), q_eval, c_eval.plus(iota)]);
    r
}

/// The evaluation of a column of words: the folded words, weighted by the rows.
pub open spec fn column_eval<F: BinaryField>(words: Seq<u64>, r_x: Seq<F>, l: Seq<F>) -> F {
    sum(|row: int| eq_weight(r_x, row).times(fold_word(words[row], l)), words.len())
}

/// How the bits of a word follow XOR and complement.
pub(crate) proof fn lemma_bit_xor(x: u64, y: u64, i: u64)
    by (bit_vector)
    requires
        i < 64,
    ensures
        (((x ^ y) >> i) & 1 == 1) == (((x >> i) & 1 == 1) != ((y >> i) & 1 == 1)),
        (0xffff_ffff_ffff_ffffu64 >> i) & 1 == 1,
        !x == x ^ 0xffff_ffff_ffff_ffffu64,
        x ^ 0 == x,
        (0u64 >> i) & 1 != 1,
{
}

/// Folding is additive over XOR.
pub proof fn lemma_fold_xor<F: BinaryField>(x: u64, y: u64, l: Seq<F>)
    requires
        l.len() == 64,
    ensures
        fold_word(x ^ y, l) == fold_word(x, l).plus(fold_word(y, l)),
{
    let f = |i: int| keep_if(bit64(x ^ y, i), l[i]);
    let a = |i: int| keep_if(bit64(x, i), l[i]);
    let b = |i: int| keep_if(bit64(y, i), l[i]);
    assert forall|i: int| 0 <= i < 64 implies #[trigger] f(i) == a(i).plus(b(i)) by {
        lemma_bit_xor(x, y, i as u64);
        lemma_zero(l[i]);
        lemma_zero(F::zero_of());
        F::lemma_plus(l[i], l[i], l[i]);
    }
    lemma_sum_ext(f, |i: int| a(i).plus(b(i)), 64);
    lemma_sum_plus(a, b, 64);
}

/// Complementing the first `rows` words of a column adds the active-row selector to its
/// evaluation, where the bit weights sum to one, as Lagrange evaluations do.
pub proof fn lemma_complement_correction<F: BinaryField>(
    words: Seq<u64>,
    rows: nat,
    r_x: Seq<F>,
    l: Seq<F>,
)
    requires
        l.len() == 64,
        rows <= words.len(),
        sum(|i: int| l[i], 64) == F::one_of(),
    ensures
        column_eval(
            Seq::new(
                words.len(),
                |row: int|
                    if row < rows {
                        !words[row]
                    } else {
                        words[row]
                    },
            ),
            r_x,
            l,
        ) == column_eval(words, r_x, l).plus(active_rows(rows, r_x)),
{
    let n = words.len();
    let full = Seq::new(
        n,
        |row: int|
            if row < rows {
                !words[row]
            } else {
                words[row]
            },
    );
    let f = |row: int| eq_weight(r_x, row).times(fold_word(full[row], l));
    let g = |row: int| eq_weight(r_x, row).times(fold_word(words[row], l));
    let h = |row: int| keep_if(row < rows, eq_weight(r_x, row));
    let ones = 0xffff_ffff_ffff_ffffu64;
    let fo = |i: int| keep_if(bit64(ones, i), l[i]);
    assert forall|i: int| 0 <= i < 64 implies #[trigger] fo(i) == l[i] by {
        lemma_bit_xor(0, 0, i as u64);
    }
    lemma_sum_ext(fo, |i: int| l[i], 64);
    assert forall|row: int| 0 <= row < n implies #[trigger] f(row) == g(row).plus(h(row)) by {
        let w = eq_weight(r_x, row);
        lemma_bit_xor(words[row], 0, 0);
        lemma_fold_xor(words[row], ones, l);
        lemma_distr(fold_word(words[row], l), F::one_of(), w);
        lemma_zero(w);
        lemma_zero(g(row));
    }
    lemma_sum_ext(f, |row: int| g(row).plus(h(row)), n);
    lemma_sum_plus(g, h, n);
    lemma_sum_tail(h, rows, n);
    lemma_sum_ext(h, |row: int| eq_weight(r_x, row), rows);
}

/// Adding a column of words by XOR adds its evaluation.
pub proof fn lemma_column_xor<F: BinaryField>(
    words: Seq<u64>,
    added: Seq<u64>,
    r_x: Seq<F>,
    l: Seq<F>,
)
    requires
        l.len() == 64,
        words.len() == added.len(),
    ensures
        column_eval(Seq::new(words.len(), |row: int| words[row] ^ added[row]), r_x, l)
            == column_eval(words, r_x, l).plus(column_eval(added, r_x, l)),
{
    let n = words.len();
    let both = Seq::new(n, |row: int| words[row] ^ added[row]);
    let f = |row: int| eq_weight(r_x, row).times(fold_word(both[row], l));
    let g = |row: int| eq_weight(r_x, row).times(fold_word(words[row], l));
    let h = |row: int| eq_weight(r_x, row).times(fold_word(added[row], l));
    assert forall|row: int| 0 <= row < n implies #[trigger] f(row) == g(row).plus(h(row)) by {
        lemma_fold_xor(words[row], added[row], l);
        lemma_distr(
            fold_word(words[row], l),
            fold_word(added[row], l),
            eq_weight(r_x, row),
        );
    }
    lemma_sum_ext(f, |row: int| g(row).plus(h(row)), n);
    lemma_sum_plus(g, h, n);
}

/// The column of round constants: at the rows of lane 0 the constant of the round, else zero.
pub open spec fn iota_column(n: nat, rows: nat) -> Seq<u64> {
    Seq::new(
        rows,
        |row: int|
            if row < 600 * n && row % 25 == 0 {
                ROUND_CONSTANTS[(row / 25) % 24]
            } else {
                0
            },
    )
}

proof fn lemma_iota_rows<F: BinaryField>(n: nat, k: nat, rows: nat, r_x: Seq<F>, l: Seq<F>)
    requires
        l.len() == 64,
        k <= 24 * n,
        25 * k <= rows,
    ensures
        sum(
            |row: int|
                eq_weight(r_x, row).times(fold_word(iota_column(n, rows)[row], l)),
            25 * k,
        ) == sum(
            |k: int|
                eq_weight(r_x, chi_row(k / 24, k % 24, 0)).times(
                    fold_word(ROUND_CONSTANTS[k % 24], l),
                ),
            k,
        ),
    decreases k,
{
    let col = iota_column(n, rows);
    let f = |row: int| eq_weight(r_x, row).times(fold_word(col[row], l));
    let g = |k: int|
        eq_weight(r_x, chi_row(k / 24, k % 24, 0)).times(fold_word(ROUND_CONSTANTS[k % 24], l));
    if k > 0 {
        let j = (k - 1) as nat;
        lemma_iota_rows(n, j, rows, r_x, l);
        assert forall|row: int| 25 * j + 1 <= row < 25 * k implies #[trigger] f(row)
            == F::zero_of() by {
            assert(row % 25 != 0);
            let z = |i: int| keep_if(bit64(0, i), l[i]);
            assert forall|i: int| 0 <= i < 64 implies #[trigger] z(i) == F::zero_of() by {
                lemma_bit_xor(0, 0, i as u64);
            }
            crate::math::sums::lemma_sum_zero(z, 64);
            lemma_zero(eq_weight(r_x, row));
        }
        lemma_sum_tail(f, 25 * j + 1, 25 * k);
        assert(sum(f, 25 * j + 1) == sum(f, 25 * j).plus(f(25 * j as int)));
        let row = 25 * j as int;
        assert(row % 25 == 0 && row / 25 == j);
        assert(chi_row(j as int / 24, j as int % 24, 0) == row);
        assert(f(row) == g(j as int));
        assert(sum(g, k) == sum(g, j).plus(g(j as int)));
    }
}

/// The round-constant column evaluates to the iota evaluation.
pub proof fn lemma_iota_column<F: BinaryField>(n: nat, rows: nat, r_x: Seq<F>, l: Seq<F>)
    requires
        l.len() == 64,
        600 * n <= rows,
    ensures
        column_eval(iota_column(n, rows), r_x, l) == iota_eval(n, r_x, l),
{
    let col = iota_column(n, rows);
    let f = |row: int| eq_weight(r_x, row).times(fold_word(col[row], l));
    lemma_iota_rows(n, 24 * n, rows, r_x, l);
    assert(25 * (24 * n) == 600 * n);
    assert forall|row: int| 600 * n <= row < rows implies #[trigger] f(row) == F::zero_of() by {
        let z = |i: int| keep_if(bit64(0, i), l[i]);
        assert forall|i: int| 0 <= i < 64 implies #[trigger] z(i) == F::zero_of() by {
            lemma_bit_xor(0, 0, i as u64);
        }
        crate::math::sums::lemma_sum_zero(z, 64);
        lemma_zero(eq_weight(r_x, row));
    }
    lemma_sum_tail(f, 600 * n, rows);
}

/// The corrections take the full chi operands back to the committed ones: the evaluations of the
/// complemented first factor and of the product with its round constants, once corrected, are
/// those of the committed columns.
pub proof fn lemma_witness_only_chi_evals<F: BinaryField>(
    p: Seq<u64>,
    c: Seq<u64>,
    n: nat,
    r_x: Seq<F>,
    l: Seq<F>,
)
    requires
        l.len() == 64,
        sum(|i: int| l[i], 64) == F::one_of(),
        600 * n <= p.len(),
        p.len() == c.len(),
    ensures
        column_eval(
            Seq::new(
                p.len(),
                |row: int|
                    if row < 600 * n {
                        !p[row]
                    } else {
                        p[row]
                    },
            ),
            r_x,
            l,
        ).plus(active_rows(600 * n, r_x)) == column_eval(p, r_x, l),
        column_eval(
            Seq::new(c.len(), |row: int| c[row] ^ iota_column(n, c.len())[row]),
            r_x,
            l,
        ).plus(iota_eval(n, r_x, l)) == column_eval(c, r_x, l),
{
    lemma_complement_correction(p, 600 * n, r_x, l);
    lemma_column_xor(c, iota_column(n, c.len()), r_x, l);
    lemma_iota_column(n, c.len(), r_x, l);
    let (a, b) = (column_eval(p, r_x, l), active_rows(600 * n, r_x));
    let (x, y) = (column_eval(c, r_x, l), iota_eval(n, r_x, l));
    F::lemma_plus(a, b, b);
    F::lemma_plus(b, b, b);
    F::lemma_plus(x, y, y);
    F::lemma_plus(y, y, y);
    lemma_zero(a);
    lemma_zero(x);
}

} // verus!
