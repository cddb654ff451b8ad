//! Evaluation of the round polynomial on pairs of states and of blocks.
use super::blocks::{
    at, bit_block, chi_at, chi_inf_at, column_sum, inf_words, lemma_inf_of_words, lemma_mixed_ext,
    lemma_output_of_words, lemma_round_of_words, output_value, pre_chi_at, round_inf, round_value,
    word_value,
};
use crate::field::BinaryField;
use crate::keccak_prove::constants::{RHO_OFFSETS, ROUND_CONSTANTS};
use crate::keccak_prove::shift_evals::{fold_word, fold_word_with_lagrange};
use crate::keccak_prove::shift_operands::{lemma_rho_pi_preimage, RHO_PI_PREIMAGE};
use crate::keccak_prove::trace::{pre_chi_of, State};
use crate::keccak_prove::trace;
use crate::math::sums::sum;
use vstd::prelude::*;

verus! {

/// The folds of words, weighted by lane.
pub fn weighted_words<F: BinaryField>(
    words: &State,
    lane_weights: &[F; 25],
    bit_weights: &[F; 64],
) -> (r: F)
    ensures
        r == word_value(words@, lane_weights@, bit_weights@),
{
    let mut acc = F::zero();
    let ghost f = |lane: int| lane_weights@[lane].times(fold_word(words@[lane], bit_weights@));
    for lane in 0..25
        invariant
            f == (|lane: int| lane_weights@[lane].times(fold_word(words@[lane], bit_weights@))),
            acc == sum(f, lane as nat),
    {
        let folded = fold_word_with_lagrange(words[lane], bit_weights.as_slice());
        acc = acc.add(lane_weights[lane].mul(folded));
    }
    acc
}

/// The round polynomial on the bits of `input_hi`, and its quadratic coefficient along the line
/// from `input_lo`.
pub fn single_fused_word_pair_eval<F: BinaryField>(
    input_lo: &State,
    input_hi: &State,
    lane_weights: &[F; 25],
    round: usize,
    bit_weights: &[F; 64],
) -> (r: (F, F))
    requires
        round < 24,
    ensures
        r.0 == round_value(
            bit_block::<F>(input_hi@),
            lane_weights@,
            round as int,
            bit_weights@,
        ),
        r.1 == round_inf(
            bit_block::<F>(input_lo@),
            bit_block::<F>(input_hi@),
            lane_weights@,
            bit_weights@,
        ),
{
    let pre_lo = trace::theta_rho_pi(*input_lo);
    let pre_hi = trace::theta_rho_pi(*input_hi);
    let next = trace::chi_iota(pre_hi, round);
    let y_1 = weighted_words(&next, lane_weights, bit_weights);
    let mut inf: State = [0u64; 25];
    for i in 0..25
        invariant
            pre_lo@ == pre_chi_of(input_lo@),
            pre_hi@ == pre_chi_of(input_hi@),
            forall|k: int|
                0 <= k < i ==> inf@[k] == inf_words(pre_chi_of(input_lo@), pre_chi_of(input_hi@))[k],
    {
        let b: usize = (i % 5 + 1) % 5 + 5 * (i / 5);
        let c: usize = (i % 5 + 2) % 5 + 5 * (i / 5);
        inf[i] = (pre_lo[b] ^ pre_hi[b]) & (pre_lo[c] ^ pre_hi[c]);
    }
    let y_inf = weighted_words(&inf, lane_weights, bit_weights);
    proof {
        lemma_round_of_words(input_hi@, lane_weights@, round as int, bit_weights@);
        lemma_inf_of_words(input_lo@, input_hi@, lane_weights@, bit_weights@);
        assert(inf@ =~= inf_words(pre_chi_of(input_lo@), pre_chi_of(input_hi@)));
    }
    (y_1, y_inf)
}

/// The output value of the bits of a state.
pub fn weighted_output_eval_at_hi<F: BinaryField>(
    output_hi: &State,
    lane_weights: &[F; 25],
    bit_weights: &[F; 64],
) -> (r: F)
    ensures
        r == output_value(bit_block::<F>(output_hi@), lane_weights@, bit_weights@),
{
    proof {
        lemma_output_of_words(output_hi@, lane_weights@, bit_weights@);
    }
    weighted_words(output_hi, lane_weights, bit_weights)
}

/// The entries of a block, weighted by lane and bit.
pub fn weighted_output_block_eval_at_hi<F: BinaryField>(
    output_hi: &Vec<F>,
    lane_weights: &[F; 25],
    bit_weights: &[F; 64],
) -> (r: F)
    requires
        output_hi@.len() == 1600,
    ensures
        r == output_value(output_hi@, lane_weights@, bit_weights@),
{
    let ghost (lw, bw, b) = (lane_weights@, bit_weights@, output_hi@);
    let ghost f = |lane: int, bit: int| at(b, lane, bit);
    let ghost g = |lane: int| lw[lane].times(sum(|bit: int| bw[bit].times(f(lane, bit)), 64));
    let mut acc = F::zero();
    for lane in 0..25
        invariant
            b == output_hi@,
            b.len() == 1600,
            lw == lane_weights@,
            bw == bit_weights@,
            f == (|lane: int, bit: int| at(b, lane, bit)),
            g == (|lane: int| lw[lane].times(sum(|bit: int| bw[bit].times(f(lane, bit)), 64))),
            acc == sum(g, lane as nat),
    {
        let mut eval = F::zero();
        let ghost h = |bit: int| bw[bit].times(f(lane as int, bit));
        for bit in 0..64
            invariant
                b == output_hi@,
                b.len() == 1600,
                lane < 25,
                bw == bit_weights@,
                f == (|lane: int, bit: int| at(b, lane, bit)),
                h == (|bit: int| bw[bit].times(f(lane as int, bit))),
                eval == sum(h, bit as nat),
        {
            eval = eval.add(bit_weights[bit].mul(output_hi[64 * lane + bit]));
        }
        acc = acc.add(lane_weights[lane].mul(eval));
    }
    acc
}

/// The pre-chi values of a block: theta, rho and pi, extended linearly.
pub fn apply_linear_recipe<F: BinaryField>(input: &Vec<F>) -> (r: Vec<F>)
    requires
        input@.len() == 1600,
    ensures
        r@.len() == 1600,
        forall|lane: int, bit: int|
            0 <= lane < 25 && 0 <= bit < 64 ==> #[trigger] at(r@, lane, bit) == pre_chi_at(
                input@,
                lane,
                bit,
            ),
{
    let ghost b = input@;
    let mut columns: Vec<F> = Vec::new();
    for i in 0..320
        invariant
            b == input@,
            b.len() == 1600,
            columns@.len() == i,
            forall|k: int| 0 <= k < i ==> #[trigger] columns@[k] == column_sum(b, k / 64, k % 64),
    {
        let x: usize = i / 64;
        let bit: usize = i % 64;
        let c = input[64 * x + bit].add(input[64 * (x + 5) + bit]).add(
            input[64 * (x + 10) + bit],
        ).add(input[64 * (x + 15) + bit]).add(input[64 * (x + 20) + bit]);
        columns.push(c);
    }
    let mut out: Vec<F> = Vec::new();
    for i in 0..1600
        invariant
            b == input@,
            b.len() == 1600,
            columns@.len() == 320,
            forall|k: int| 0 <= k < 320 ==> #[trigger] columns@[k] == column_sum(b, k / 64, k % 64),
            out@.len() == i,
            forall|k: int| 0 <= k < i ==> #[trigger] out@[k] == pre_chi_at(b, k / 64, k % 64),
    {
        let lane: usize = i / 64;
        let bit: usize = i % 64;
        proof {
            lemma_rho_pi_preimage(lane as int);
        }
        let source: usize = RHO_PI_PREIMAGE[lane];
        let rho: usize = RHO_OFFSETS[source] as usize;
        let k: usize = if rho <= bit {
            bit - rho
        } else {
            bit + 64 - rho
        };
        let k1: usize = if k >= 1 {
            k - 1
        } else {
            63
        };
        let x: usize = source % 5;
        let xl: usize = (x + 4) % 5;
        let xr: usize = (x + 1) % 5;
        proof {
            let (il, ir) = (64 * xl + k, 64 * xr + k1);
            assert(il / 64 == xl && il % 64 == k);
            assert(ir / 64 == xr && ir % 64 == k1);
            assert(columns@[il as int] == column_sum(b, xl as int, k as int));
            assert(columns@[ir as int] == column_sum(b, xr as int, k1 as int));
        }
        let theta = columns[64 * xl + k].add(columns[64 * xr + k1]);
        out.push(input[64 * source + k].add(theta));
    }
    proof {
        assert forall|lane: int, bit: int|
            0 <= lane < 25 && 0 <= bit < 64 implies #[trigger] at(out@, lane, bit) == pre_chi_at(
            b,
            lane,
            bit,
        ) by {
            let i = 64 * lane + bit;
            assert(i / 64 == lane && i % 64 == bit);
            assert(out@[i] == pre_chi_at(b, i / 64, i % 64));
        }
    }
    out
}

/// The chi value of the pre-chi values, with the round constant, weighted by lane and bit.
fn compose_chi_iota_from_low_vectors<F: BinaryField>(
    pre_chi: &Vec<F>,
    Ghost(block): Ghost<Seq<F>>,
    lane_weights: &[F; 25],
    round: usize,
    bit_weights: &[F; 64],
) -> (r: F)
    requires
        pre_chi@.len() == 1600,
        round < 24,
        forall|lane: int, bit: int|
            0 <= lane < 25 && 0 <= bit < 64 ==> #[trigger] at(pre_chi@, lane, bit) == pre_chi_at(
                block,
                lane,
                bit,
            ),
    ensures
        r == round_value(block, lane_weights@, round as int, bit_weights@),
{
    let mut chi: Vec<F> = Vec::new();
    for i in 0..1600
        invariant
            pre_chi@.len() == 1600,
            forall|lane: int, bit: int|
                0 <= lane < 25 && 0 <= bit < 64 ==> #[trigger] at(pre_chi@, lane, bit)
                    == pre_chi_at(block, lane, bit),
            chi@.len() == i,
            forall|k: int| 0 <= k < i ==> #[trigger] chi@[k] == chi_at(block, k / 64, k % 64),
    {
        let lane: usize = i / 64;
        let bit: usize = i % 64;
        let l1: usize = (lane % 5 + 1) % 5 + 5 * (lane / 5);
        let l2: usize = (lane % 5 + 2) % 5 + 5 * (lane / 5);
        let x = pre_chi[64 * lane + bit];
        let y = pre_chi[64 * l1 + bit];
        let z = pre_chi[64 * l2 + bit];
        proof {
            assert(at(pre_chi@, lane as int, bit as int) == x);
            assert(at(pre_chi@, l1 as int, bit as int) == y);
            assert(at(pre_chi@, l2 as int, bit as int) == z);
        }
        chi.push(x.add(z).add(y.mul(z)));
    }
    let value = weighted_output_block_eval_at_hi(&chi, lane_weights, bit_weights);
    let rc = fold_word_with_lagrange(ROUND_CONSTANTS[round], bit_weights.as_slice());
    proof {
        let f = |lane: int, bit: int| at(chi@, lane, bit);
        let g = |lane: int, bit: int| chi_at(block, lane, bit);
        assert forall|lane: int, bit: int| 0 <= lane < 25 && 0 <= bit < 64 implies #[trigger] f(
            lane,
            bit,
        ) == g(lane, bit) by {
            let i = 64 * lane + bit;
            assert(i / 64 == lane && i % 64 == bit);
            assert(chi@[i] == chi_at(block, i / 64, i % 64));
        }
        lemma_mixed_ext(f, g, lane_weights@, bit_weights@);
    }
    value.add(lane_weights[0].mul(rc))
}

/// The round polynomial on a block.
pub fn fused_round_eval<F: BinaryField>(
    block: &Vec<F>,
    lane_weights: &[F; 25],
    round: usize,
    bit_weights: &[F; 64],
) -> (r: F)
    requires
        block@.len() == 1600,
        round < 24,
    ensures
        r == round_value(block@, lane_weights@, round as int, bit_weights@),
{
    let pre_chi = apply_linear_recipe(block);
    compose_chi_iota_from_low_vectors(
        &pre_chi,
        Ghost(block@),
        lane_weights,
        round,
        bit_weights,
    )
}

/// The round polynomial on `input_hi`, and its quadratic coefficient along the line from
/// `input_lo`.
pub fn single_fused_block_pair_eval<F: BinaryField>(
    input_lo: &Vec<F>,
    input_hi: &Vec<F>,
    lane_weights: &[F; 25],
    round: usize,
    bit_weights: &[F; 64],
) -> (r: (F, F))
    requires
        input_lo@.len() == 1600,
        input_hi@.len() == 1600,
        round < 24,
    ensures
        r.0 == round_value(input_hi@, lane_weights@, round as int, bit_weights@),
        r.1 == round_inf(input_lo@, input_hi@, lane_weights@, bit_weights@),
{
    let ghost (lo, hi) = (input_lo@, input_hi@);
    let pre_lo = apply_linear_recipe(input_lo);
    let pre_hi = apply_linear_recipe(input_hi);
    let y_1 = compose_chi_iota_from_low_vectors(
        &pre_hi,
        Ghost(hi),
        lane_weights,
        round,
        bit_weights,
    );
    let mut inf: Vec<F> = Vec::new();
    for i in 0..1600
        invariant
            pre_lo@.len() == 1600,
            pre_hi@.len() == 1600,
            forall|lane: int, bit: int|
                0 <= lane < 25 && 0 <= bit < 64 ==> #[trigger] at(pre_lo@, lane, bit)
                    == pre_chi_at(lo, lane, bit),
            forall|lane: int, bit: int|
                0 <= lane < 25 && 0 <= bit < 64 ==> #[trigger] at(pre_hi@, lane, bit)
                    == pre_chi_at(hi, lane, bit),
            inf@.len() == i,
            forall|k: int|
                0 <= k < i ==> #[trigger] inf@[k] == chi_inf_at(lo, hi, k / 64, k % 64),
    {
        let lane: usize = i / 64;
        let bit: usize = i % 64;
        let l1: usize = (lane % 5 + 1) % 5 + 5 * (lane / 5);
        let l2: usize = (lane % 5 + 2) % 5 + 5 * (lane / 5);
        let y = pre_lo[64 * l1 + bit].add(pre_hi[64 * l1 + bit]);
        let z = pre_lo[64 * l2 + bit].add(pre_hi[64 * l2 + bit]);
        proof {
            assert(at(pre_lo@, l1 as int, bit as int) == pre_chi_at(lo, l1 as int, bit as int));
            assert(at(pre_hi@, l1 as int, bit as int) == pre_chi_at(hi, l1 as int, bit as int));
            assert(at(pre_lo@, l2 as int, bit as int) == pre_chi_at(lo, l2 as int, bit as int));
            assert(at(pre_hi@, l2 as int, bit as int) == pre_chi_at(hi, l2 as int, bit as int));
        }
        inf.push(y.mul(z));
    }
    let y_inf = weighted_output_block_eval_at_hi(&inf, lane_weights, bit_weights);
    proof {
        let f = |lane: int, bit: int| at(inf@, lane, bit);
        let g = |lane: int, bit: int| chi_inf_at(lo, hi, lane, bit);
        assert forall|lane: int, bit: int| 0 <= lane < 25 && 0 <= bit < 64 implies #[trigger] f(
            lane,
            bit,
        ) == g(lane, bit) by {
            let i = 64 * lane + bit;
            assert(i / 64 == lane && i % 64 == bit);
            assert(inf@[i] == chi_inf_at(lo, hi, i / 64, i % 64));
        }
        lemma_mixed_ext(f, g, lane_weights@, bit_weights@);
    }
    (y_1, y_inf)
}

} // verus!
