//! Claims on the lanes of batches of Keccak states, and how they are computed from tables and
//! from words.
use super::batch::Table;
use super::blocks::at;
use super::sumcheck::{lane_fold, lane_fold_of};
use super::sumcheck_laws::table_at;
use crate::field::BinaryField;
use crate::keccak_prove::trace::{round, rounds_state, State};
use crate::math::multilinear::{
    eq_ind_partial_eval_scalars, eq_weight, eq_weights, evaluate_scalars, mle,
};
use crate::math::sums::{lemma_sum_ext, lemma_zero, sum};
use crate::verify::repeated_monster::{exact_log2, is_pow2};
use crate::verify::shift_laws::{bit64, indicator};
use vstd::arithmetic::power2::pow2;
use super::rotation::{bit_lagrange_weights, bit_weights_of};
use vstd::prelude::*;

verus! {

/// A random linear combination claim over the 25 Keccak lanes at a single point.
#[derive(Debug, Clone, PartialEq, Eq)]
pub struct MixedClaim<F> {
    /// Evaluation point in low-to-high variable order.
    pub point: Vec<F>,
    /// Random verifier weights, one per lane.
    pub lane_weights: [F; 25],
    /// Claimed evaluations of the 25 lane multilinears at `point`.
    pub lane_evals: [F; 25],
    /// Mixed claim `sum_i lane_weights[i] * lane_evals[i]`.
    pub mixed_eval: F,
}

/// Endpoint claims: on the output and on the input.
#[derive(Debug, Clone, PartialEq, Eq)]
pub struct EndpointClaims<F> {
    /// The claim on the output.
    pub output_claim: MixedClaim<F>,
    /// The claim on the input.
    pub input_claim: MixedClaim<F>,
}

/// Number of low variables used to index the 64 Keccak bit positions in each lane.
pub const LOG_BIT_INDEX_VARS: usize = 6;

/// Number of bit positions in a Keccak lane.
pub const BIT_INDEX_SIZE: usize = 64;

/// Number of deterministic small-field batch coordinates appended at the high end of the point.
pub const SMALL_FIELD_SUFFIX_VARS: usize = 3;

/// A mixed claim where the 64 lane-bit positions have already been folded at `bit_challenge`.
#[derive(Debug, Clone, PartialEq, Eq)]
pub struct BitIndexedMixedClaim<F> {
    /// Fixed univariate challenge used to fold the 64 bit positions.
    pub bit_challenge: F,
    /// Evaluation point for the remaining high instance variables.
    pub high_point: Vec<F>,
    /// Random verifier weights, one per lane.
    pub lane_weights: [F; 25],
    /// Claimed evaluations of the 25 folded lane multilinears at `high_point`.
    pub lane_evals: [F; 25],
    /// Mixed claim `sum_i lane_weights[i] * lane_evals[i]`.
    pub mixed_eval: F,
}

/// Endpoint claims whose lane bits are folded.
#[derive(Debug, Clone, PartialEq, Eq)]
pub struct BitIndexedEndpointClaims<F> {
    /// The claim on the output.
    pub output_claim: BitIndexedMixedClaim<F>,
    /// The claim on the input.
    pub input_claim: BitIndexedMixedClaim<F>,
}

/// Endpoint claims of a first round before the bit index is folded.
#[derive(Debug, Clone, PartialEq, Eq)]
pub struct OblongEndpointClaims<F> {
    /// The claim on the output.
    pub output_claim: OblongRoundBoundaryClaim<F>,
    /// The claim on the input.
    pub input_claim: OblongRoundBoundaryClaim<F>,
}

/// Boundary claim of a first round before the bit index is folded.
#[derive(Debug, Clone, PartialEq, Eq)]
pub struct OblongRoundBoundaryClaim<F> {
    /// Evaluation point for the batch variables.
    pub high_point: Vec<F>,
    /// Random verifier weights, one per lane.
    pub lane_weights: [F; 25],
}

/// Output of a first round after the bit challenge.
#[derive(Debug, Clone, PartialEq, Eq)]
pub struct OblongFirstRoundOutput<F> {
    /// Bit-index challenge used to fold the 64-point bit domain.
    pub bit_challenge: F,
    /// The resulting folded output claim.
    pub output_claim: BitIndexedMixedClaim<F>,
}

/// The weighted sum of the lane evaluations.
pub open spec fn mixed_eval_of<F: BinaryField>(weights: Seq<F>, evals: Seq<F>) -> F {
    sum(|i: int| weights[i].times(evals[i]), 25)
}

/// Whether a claim holds the given parts and their mixed evaluation.
pub open spec fn is_bit_claim<F: BinaryField>(
    c: BitIndexedMixedClaim<F>,
    bit_challenge: F,
    high_point: Seq<F>,
    weights: Seq<F>,
    evals: Seq<F>,
) -> bool {
    &&& c.bit_challenge == bit_challenge
    &&& c.high_point@ == high_point
    &&& c.lane_weights@ == weights
    &&& c.lane_evals@ == evals
    &&& c.mixed_eval == mixed_eval_of(weights, evals)
}

fn mix<F: BinaryField>(weights: &[F; 25], evals: &[F; 25]) -> (r: F)
    ensures
        r == mixed_eval_of(weights@, evals@),
{
    let mut acc = F::zero();
    let ghost f = |i: int| weights@[i].times(evals@[i]);
    for i in 0..25
        invariant
            f == (|i: int| weights@[i].times(evals@[i])),
            acc == sum(f, i as nat),
    {
        acc = acc.add(weights[i].mul(evals[i]));
    }
    acc
}

/// Builds a mixed claim from lane evaluations.
pub fn mixed_claim_from_evals<F: BinaryField>(
    point: Vec<F>,
    lane_weights: [F; 25],
    lane_evals: [F; 25],
) -> (r: MixedClaim<F>)
    ensures
        r.point == point,
        r.lane_weights == lane_weights,
        r.lane_evals == lane_evals,
        r.mixed_eval == mixed_eval_of(lane_weights@, lane_evals@),
{
    let mixed_eval = mix(&lane_weights, &lane_evals);
    MixedClaim { point, lane_weights, lane_evals, mixed_eval }
}

/// Builds a bit-indexed mixed claim from folded lane evaluations.
pub fn bit_indexed_claim_from_evals<F: BinaryField>(
    bit_challenge: F,
    high_point: Vec<F>,
    lane_weights: [F; 25],
    lane_evals: [F; 25],
) -> (r: BitIndexedMixedClaim<F>)
    ensures
        r.high_point == high_point,
        is_bit_claim(r, bit_challenge, high_point@, lane_weights@, lane_evals@),
{
    let mixed_eval = mix(&lane_weights, &lane_evals);
    BitIndexedMixedClaim { bit_challenge, high_point, lane_weights, lane_evals, mixed_eval }
}

/// Copies a list of field elements.
pub fn copy_point<F: BinaryField>(p: &[F]) -> (r: Vec<F>)
    ensures
        r@ == p@,
{
    let mut r: Vec<F> = Vec::new();
    let n: usize = p.len();
    for i in 0..n
        invariant
            n == p@.len(),
            r@ =~= p@.take(i as int),
    {
        r.push(p[i]);
    }
    assert(r@ =~= p@);
    r
}

/// Builds a mixed claim by evaluating 25 lane tables of `2^n` entries at a point of `n`
/// coordinates.
pub fn mixed_lane_claim<F: BinaryField>(
    lane_tables: &Vec<Vec<F>>,
    point: &[F],
    lane_weights: [F; 25],
) -> (r: MixedClaim<F>)
    requires
        lane_tables@.len() == 25,
        forall|l: int|
            0 <= l < 25 ==> (#[trigger] lane_tables@[l])@.len() == pow2(point@.len()),
    ensures
        r.point@ == point@,
        r.lane_weights == lane_weights,
        forall|l: int| 0 <= l < 25 ==> #[trigger] r.lane_evals[l] == mle(lane_tables@[l]@, point@),
        r.mixed_eval == mixed_eval_of(lane_weights@, r.lane_evals@),
{
    let mut lane_evals: [F; 25] = [F::zero(); 25];
    for l in 0..25
        invariant
            lane_tables@.len() == 25,
            forall|l: int|
                0 <= l < 25 ==> (#[trigger] lane_tables@[l])@.len() == pow2(point@.len()),
            forall|k: int| 0 <= k < l ==> #[trigger] lane_evals[k] == mle(lane_tables@[k]@, point@),
    {
        let table = &lane_tables[l];
        assert(lane_tables@[l as int]@.len() == pow2(point@.len()));
        lane_evals[l] = evaluate_scalars(table.as_slice(), point);
    }
    mixed_claim_from_evals(copy_point(point), lane_weights, lane_evals)
}

/// A lane table with its 64 bit positions folded by the bit weights.
pub open spec fn folded_table<F: BinaryField>(table: Seq<F>, bw: Seq<F>) -> Seq<F> {
    Seq::new(
        table.len() / 64,
        |i: int| sum(|bit: int| table[64 * i + bit].times(bw[bit]), 64),
    )
}

/// Folds the low six bit-index variables of each lane table with the bit weights.
pub fn fold_lane_tables_with_bit_weights<F: BinaryField>(
    lane_tables: &Vec<Vec<F>>,
    bit_weights: &[F; 64],
) -> (r: Vec<Vec<F>>)
    ensures
        r@.len() == lane_tables@.len(),
        forall|l: int|
            0 <= l < lane_tables@.len() ==> (#[trigger] r@[l])@ == folded_table(
                lane_tables@[l]@,
                bit_weights@,
            ),
{
    let mut out: Vec<Vec<F>> = Vec::new();
    let n: usize = lane_tables.len();
    for l in 0..n
        invariant
            n == lane_tables@.len(),
            out@.len() == l,
            forall|k: int|
                0 <= k < l ==> (#[trigger] out@[k])@ == folded_table(
                    lane_tables@[k]@,
                    bit_weights@,
                ),
    {
        let table = &lane_tables[l];
        let m: usize = table.len() / 64;
        let mut folded: Vec<F> = Vec::new();
        for i in 0..m
            invariant
                m == table@.len() / 64,
                64 * m <= usize::MAX,
                folded@.len() == i,
                forall|k: int|
                    0 <= k < i ==> #[trigger] folded@[k] == folded_table(
                        table@,
                        bit_weights@,
                    )[k],
        {
            let mut acc = F::zero();
            let ghost f = |bit: int| table@[64 * i + bit].times(bit_weights@[bit]);
            for bit in 0..64
                invariant
                    i < m,
                    m == table@.len() / 64,
                    64 * m <= usize::MAX,
                    f == (|bit: int| table@[64 * i + bit].times(bit_weights@[bit])),
                    acc == sum(f, bit as nat),
            {
                acc = acc.add(table[64 * i + bit].mul(bit_weights[bit]));
            }
            folded.push(acc);
        }
        assert(folded@ =~= folded_table(table@, bit_weights@));
        out.push(folded);
    }
    out
}

/// Folds the low 6 bit-index variables of each lane table at a challenge.
pub fn fold_lane_tables_at_bit_challenge<F: BinaryField>(
    lane_tables: &Vec<Vec<F>>,
    bit_challenge: F,
) -> (out: Vec<Vec<F>>)
    ensures
        out@.len() == lane_tables@.len(),
        forall|l: int|
            0 <= l < lane_tables@.len() ==> (#[trigger] out@[l])@ == folded_table(
                lane_tables@[l]@,
                bit_weights_of(bit_challenge),
            ),
{
    let bit_weights = bit_lagrange_weights(bit_challenge);
    fold_lane_tables_with_bit_weights(lane_tables, &bit_weights)
}

/// Builds a bit-indexed claim by folding 25 lane tables of `64 * 2^n` entries and evaluating them
/// at a point of `n` coordinates.
pub fn bit_indexed_lane_claim<F: BinaryField>(
    lane_tables: &Vec<Vec<F>>,
    bit_challenge: F,
    high_point: &[F],
    lane_weights: [F; 25],
) -> (r: BitIndexedMixedClaim<F>)
    requires
        lane_tables@.len() == 25,
        forall|l: int|
            0 <= l < 25 ==> (#[trigger] lane_tables@[l])@.len() == 64 * pow2(high_point@.len()),
    ensures
        r.bit_challenge == bit_challenge,
        r.high_point@ == high_point@,
        r.lane_weights == lane_weights,
        forall|l: int|
            0 <= l < 25 ==> #[trigger] r.lane_evals[l] == mle(
                folded_table(lane_tables@[l]@, bit_weights_of(bit_challenge)),
                high_point@,
            ),
        r.mixed_eval == mixed_eval_of(lane_weights@, r.lane_evals@),
{
    let folded = fold_lane_tables_at_bit_challenge(lane_tables, bit_challenge);
    let mut lane_evals: [F; 25] = [F::zero(); 25];
    for l in 0..25
        invariant
            lane_tables@.len() == 25,
            folded@.len() == 25,
            forall|l: int|
                0 <= l < 25 ==> (#[trigger] lane_tables@[l])@.len() == 64 * pow2(high_point@.len()),
            forall|l: int|
                0 <= l < 25 ==> (#[trigger] folded@[l])@ == folded_table(
                    lane_tables@[l]@,
                    bit_weights_of(bit_challenge),
                ),
            forall|k: int|
                0 <= k < l ==> #[trigger] lane_evals[k] == mle(
                    folded_table(lane_tables@[k]@, bit_weights_of(bit_challenge)),
                    high_point@,
                ),
    {
        let table = &folded[l];
        assert(lane_tables@[l as int]@.len() == 64 * pow2(high_point@.len()));
        assert(folded@[l as int]@.len() == pow2(high_point@.len()));
        lane_evals[l] = evaluate_scalars(table.as_slice(), high_point);
    }
    bit_indexed_claim_from_evals(bit_challenge, copy_point(high_point), lane_weights, lane_evals)
}

/// The encodings of the deterministic small-field suffix challenges, elements of the 8-bit tower
/// field.
pub fn deterministic_small_field_suffix(len: usize) -> (r: Vec<u8>)
    requires
        len <= SMALL_FIELD_SUFFIX_VARS,
    ensures
        r@ == seq![2u8, 4u8, 16u8].take(len as int),
{
    let all: [u8; 3] = [2, 4, 16];
    let mut r: Vec<u8> = Vec::new();
    for i in 0..len
        invariant
            len <= 3,
            all@ =~= seq![2u8, 4u8, 16u8],
            r@ =~= all@.take(i as int),
    {
        r.push(all[i]);
    }
    r
}

/// Appends the small-field suffix coordinates to a high point.
pub fn extend_high_point_with_small_field_suffix<F: BinaryField>(
    high_point: &[F],
    small_field_suffix: &[F],
) -> (r: Vec<F>)
    ensures
        r@ == high_point@ + small_field_suffix@,
{
    let mut r = copy_point(high_point);
    let n: usize = small_field_suffix.len();
    for i in 0..n
        invariant
            n == small_field_suffix@.len(),
            r@ =~= high_point@ + small_field_suffix@.take(i as int),
    {
        r.push(small_field_suffix[i]);
    }
    assert(r@ =~= high_point@ + small_field_suffix@);
    r
}

/// The entries of the multilinear extension of a batch of states at a point.
pub open spec fn words_at<F: BinaryField>(words: Seq<State>, point: Seq<F>) -> Seq<F> {
    Seq::new(
        1600,
        |j: int|
            sum(
                |i: int|
                    eq_weight(point, i).times(
                        indicator::<F>(bit64(words[i]@[j / 64], j % 64)),
                    ),
                pow2(point.len()),
            ),
    )
}

/// Evaluates every bit of a batch of `2^n` states at a point of `n` coordinates.
pub fn evaluate_lane_low_vectors_from_words<F: BinaryField>(words: &[State], point: &[F]) -> (r: Vec<
    F,
>)
    requires
        words@.len() == pow2(point@.len()),
    ensures
        r@ == words_at(words@, point@),
{
    let n: usize = words.len();
    let eq = eq_ind_partial_eval_scalars(point);
    let mut r: Vec<F> = Vec::new();
    for j in 0..1600
        invariant
            n == words@.len(),
            n == pow2(point@.len()),
            eq@ == eq_weights(point@),
            r@.len() == j,
            forall|k: int| 0 <= k < j ==> #[trigger] r@[k] == words_at(words@, point@)[k],
    {
        let lane: usize = j / 64;
        let bit: u64 = (j % 64) as u64;
        let mut acc = F::zero();
        let ghost f = |i: int|
            eq_weight(point@, i).times(
                indicator::<F>(bit64(words@[i]@[j as int / 64], j as int % 64)),
            );
        for i in 0..n
            invariant
                j < 1600,
                lane == j / 64,
                bit == j % 64,
                n == words@.len(),
                n == pow2(point@.len()),
                eq@ == eq_weights(point@),
                f == (|i: int|
                    eq_weight(point@, i).times(
                        indicator::<F>(bit64(words@[i]@[j as int / 64], j as int % 64)),
                    )),
                acc == sum(f, i as nat),
        {
            proof {
                lemma_zero(acc);
                lemma_zero(eq_weight(point@, i as int));
                assert(sum(f, (i + 1) as nat) == sum(f, i as nat).plus(f(i as int)));
            }
            if (words[i][lane] >> bit) & 1 == 1 {
                acc = acc.add(eq[i]);
            }
        }
        r.push(acc);
    }
    assert(r@ =~= words_at(words@, point@));
    r
}

/// The evaluation at a point of a batch of states is that of its table.
pub proof fn lemma_words_at<F: BinaryField>(words: Vec<State>, point: Seq<F>)
    requires
        words@.len() == pow2(point.len()),
    ensures
        words_at(words@, point) == table_at(Table::<F>::Words(words), point),
{
    let t = Table::<F>::Words(words);
    assert forall|j: int| 0 <= j < 1600 implies words_at(words@, point)[j] == table_at(t, point)[j] by {
        lemma_sum_ext(
            |i: int|
                eq_weight(point, i).times(indicator::<F>(bit64(words@[i]@[j / 64], j % 64))),
            |i: int| eq_weight(point, i).times(t.block(i)[j]),
            pow2(point.len()),
        );
    }
    assert(words_at(words@, point) =~= table_at(t, point));
}

/// The 25 folded lane evaluations of a block.
pub open spec fn folded_lanes<F: BinaryField>(block: Seq<F>, bw: Seq<F>) -> Seq<F> {
    Seq::new(25, |l: int| lane_fold(block, l, bw))
}

/// Folds the 64 entries of each lane of a block by the bit weights.
pub fn fold_low_vectors<F: BinaryField>(low_vectors: &Vec<F>, bit_weights: &[F; 64]) -> (r: [F; 25])
    requires
        low_vectors@.len() == 1600,
    ensures
        r@ == folded_lanes(low_vectors@, bit_weights@),
{
    let mut r: [F; 25] = [F::zero(); 25];
    for l in 0..25
        invariant
            low_vectors@.len() == 1600,
            forall|k: int|
                0 <= k < l ==> #[trigger] r[k] == lane_fold(low_vectors@, k, bit_weights@),
    {
        r[l] = lane_fold_of(low_vectors, l, bit_weights);
    }
    assert(r@ =~= folded_lanes(low_vectors@, bit_weights@));
    r
}

/// Builds a bit-indexed claim from a batch of `2^n` states at a point of `n` coordinates.
///
pub fn bit_indexed_lane_claim_from_words<F: BinaryField>(
    words: &[State],
    bit_challenge: F,
    high_point: &[F],
    lane_weights: [F; 25],
) -> (r: BitIndexedMixedClaim<F>)
    requires
        words@.len() == pow2(high_point@.len()),
    ensures
        is_bit_claim(
            r,
            bit_challenge,
            high_point@,
            lane_weights@,
            folded_lanes(words_at(words@, high_point@), bit_weights_of(bit_challenge)),
        ),
{
    let bit_weights = bit_lagrange_weights(bit_challenge);
    let low_vectors = evaluate_lane_low_vectors_from_words(words, high_point);
    let lane_evals = fold_low_vectors(&low_vectors, &bit_weights);
    bit_indexed_claim_from_evals(bit_challenge, copy_point(high_point), lane_weights, lane_evals)
}

/// Builds a bit-indexed claim from a batch of states at a point extended by the small-field
/// suffix; the claim records the point without the suffix.
pub fn bit_indexed_lane_claim_from_words_with_small_field_suffix<F: BinaryField>(
    words: &[State],
    bit_challenge: F,
    high_point: &[F],
    small_field_suffix: &[F],
    lane_weights: [F; 25],
) -> (r: BitIndexedMixedClaim<F>)
    requires
        words@.len() == pow2(high_point@.len() + small_field_suffix@.len()),
    ensures
        is_bit_claim(
            r,
            bit_challenge,
            high_point@,
            lane_weights@,
            folded_lanes(words_at(words@, high_point@ + small_field_suffix@), bit_weights_of(bit_challenge)),
        ),
{
    let bit_weights = bit_lagrange_weights(bit_challenge);
    let full_point = extend_high_point_with_small_field_suffix(high_point, small_field_suffix);
    let low_vectors = evaluate_lane_low_vectors_from_words(words, full_point.as_slice());
    let lane_evals = fold_low_vectors(&low_vectors, &bit_weights);
    bit_indexed_claim_from_evals(bit_challenge, copy_point(high_point), lane_weights, lane_evals)
}

/// The states of a batch before every round and after the last.
#[derive(Debug, Clone, PartialEq, Eq)]
pub struct CompactTrace {
    /// The states before each round, by round and instance.
    pub round_inputs: Vec<Vec<State>>,
    /// The states after the last round.
    pub final_output: Vec<State>,
}

impl CompactTrace {
    /// The number of instances.
    pub fn n_instances(&self) -> (r: usize)
        ensures
            r == self.final_output@.len(),
    {
        self.final_output.len()
    }

    /// The number of variables that address an instance.
    pub fn log_n_instances(&self) -> (r: usize)
        requires
            is_pow2(self.final_output@.len()),
        ensures
            self.final_output@.len() == pow2(r as nat),
    {
        exact_log2(self.final_output.len())
    }

    /// Whether the trace has 24 rounds, of as many instances as the output.
    pub open spec fn shaped(self) -> bool {
        &&& self.round_inputs@.len() == 24
        &&& forall|r: int|
            0 <= r < 24 ==> (#[trigger] self.round_inputs@[r])@.len() == self.final_output@.len()
    }

    /// The states after round `r - 1`, which are those before round `r`.
    pub open spec fn states(self, r: int) -> Seq<State> {
        if r < 24 {
            self.round_inputs@[r]@
        } else {
            self.final_output@
        }
    }

    /// Whether every state is the Keccak round of the one before.
    pub open spec fn valid(self) -> bool {
        &&& self.shaped()
        &&& forall|r: int, i: int|
            0 <= r < 24 && 0 <= i < self.final_output@.len() ==> (#[trigger] self.states(
                r + 1,
            )[i])@ == crate::keccak_prove::trace::round_state(self.states(r)[i]@, r)
    }
}

/// Runs the permutation on a batch of inputs and keeps the states between rounds.
pub fn compact_trace_from_inputs(inputs: &Vec<State>) -> (trace: CompactTrace)
    ensures
        trace.shaped(),
        trace.valid(),
        trace.final_output@.len() == inputs@.len(),
        forall|r: int, i: int|
            0 <= r < 25 && 0 <= i < inputs@.len() ==> (#[trigger] trace.states(r)[i])@
                == rounds_state(inputs@[i]@, r as nat),
{
    let n: usize = inputs.len();
    let mut round_inputs: Vec<Vec<State>> = Vec::new();
    let mut current: Vec<State> = Vec::new();
    for i in 0..n
        invariant
            n == inputs@.len(),
            current@ =~= inputs@.take(i as int),
    {
        current.push(inputs[i]);
    }
    for r in 0..24
        invariant
            n == inputs@.len(),
            round_inputs@.len() == r,
            current@.len() == n,
            forall|i: int| 0 <= i < n ==> (#[trigger] current@[i])@ == rounds_state(
                inputs@[i]@,
                r as nat,
            ),
            forall|k: int|
                0 <= k < r ==> (#[trigger] round_inputs@[k])@.len() == n,
            forall|k: int, i: int|
                0 <= k < r && 0 <= i < n ==> (#[trigger] round_inputs@[k]@[i])@ == rounds_state(
                    inputs@[i]@,
                    k as nat,
                ),
    {
        let mut next: Vec<State> = Vec::new();
        for i in 0..n
            invariant
                r < 24,
                n == inputs@.len(),
                current@.len() == n,
                forall|i: int| 0 <= i < n ==> (#[trigger] current@[i])@ == rounds_state(
                    inputs@[i]@,
                    r as nat,
                ),
                next@.len() == i,
                forall|k: int| 0 <= k < i ==> (#[trigger] next@[k])@ == rounds_state(
                    inputs@[k]@,
                    (r + 1) as nat,
                ),
        {
            next.push(round(current[i], r));
        }
        round_inputs.push(current);
        current = next;
    }
    let trace = CompactTrace { round_inputs, final_output: current };
    proof {
        assert forall|r: int, i: int| 0 <= r < 25 && 0 <= i < n implies (#[trigger] trace.states(
            r,
        )[i])@ == rounds_state(inputs@[i]@, r as nat) by {
            if r < 24 {
                assert(trace.round_inputs@[r]@[i]@ == rounds_state(inputs@[i]@, r as nat));
            }
        }
        assert forall|r: int, i: int| 0 <= r < 24 && 0 <= i < n implies (#[trigger] trace.states(
            r + 1,
        )[i])@ == crate::keccak_prove::trace::round_state(trace.states(r)[i]@, r) by {
            assert(trace.states(r)[i]@ == rounds_state(inputs@[i]@, r as nat));
        }
    }
    trace
}

} // verus!
