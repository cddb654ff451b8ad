//! Reduction of a group of consecutive Keccak rounds in one sumcheck.
//!
//! The polynomial of a group of `k` rounds is
//!
//! ```text
//! f = chi_iota_last(State_last) + sum_{r < k-1} tw[r] * (chi_iota_r(State_r) - State_{r+1})
//! ```
//!
//! mixed over lanes and bits. On the states of a valid trace the residuals vanish and the first
//! term is the output of the group.
use super::batch::{batched_value, BatchedPolynomial, OutputTerm, RoundTerm, Table};
use super::blocks::{
    at, bit_block, lemma_mixed_ext, lemma_mixed_plus, lemma_mixed_scale, lemma_round_of_words, mixed,
    output_value, round_value,
};
use super::claims::{
    evaluate_lane_low_vectors_from_words, fold_low_vectors, folded_lanes, mixed_eval_of, words_at,
    BitIndexedMixedClaim,
};
use super::kernels::{fused_round_eval, weighted_output_block_eval_at_hi};
use super::sumcheck::{
    claim_of, coeffs_at, interpolated, polynomial_folds, round_at_inf, round_at_one, RoundCoeffs,
    RoundCoeffsOrEval, SumProver, SumcheckError,
};
use crate::field::BinaryField;
use crate::keccak_prove::trace::{round_state, State};
use crate::math::multilinear::eq_weight;
use crate::math::sums::{
    lemma_distr, lemma_sum_ext, lemma_sum_plus, lemma_sum_zero, lemma_zero, sum,
};
use crate::verify::shift_laws::{bit64, indicator};
use vstd::arithmetic::power2::pow2;
use vstd::prelude::*;

verus! {

/// Which part of a claim does not fit.
#[derive(Debug, Clone, Copy, PartialEq, Eq, Structural)]
pub enum ClaimError {
    /// `round_inputs.len() must equal group_size`.
    RoundInputCount,
    /// `transition_weights.len() must equal group_size - 1`.
    TransitionWeightCount,
    /// `round input count must match 2^high_point.len()`.
    RoundInputSize,
    /// `group output count must match 2^high_point.len()`.
    GroupOutputSize,
    /// `expected 25 folded input evaluations`.
    FoldedEvaluationCount,
    /// `trace must contain exactly 24 rounds`.
    TraceRounds,
    /// `number of instances must be a power of two`.
    InstanceCount,
    /// `all rounds must have the same number of instances`.
    RoundSizes,
    /// `final output must have the same number of instances`.
    FinalOutputSize,
    /// `group_size must divide 24 evenly`.
    GroupSize,
}

impl ClaimError {
    /// What is wrong with the claim.
    pub fn message(&self) -> (r: &'static str)
        ensures
            r@ == match *self {
                ClaimError::RoundInputCount => "round_inputs.len() must equal group_size"@,
                ClaimError::TransitionWeightCount => "transition_weights.len() must equal group_size - 1"@,
                ClaimError::RoundInputSize => "round input count must match 2^high_point.len()"@,
                ClaimError::GroupOutputSize => "group output count must match 2^high_point.len()"@,
                ClaimError::FoldedEvaluationCount => "expected 25 folded input evaluations"@,
                ClaimError::TraceRounds => "trace must contain exactly 24 rounds"@,
                ClaimError::InstanceCount => "number of instances must be a power of two"@,
                ClaimError::RoundSizes => "all rounds must have the same number of instances"@,
                ClaimError::FinalOutputSize => "final output must have the same number of instances"@,
                ClaimError::GroupSize => "group_size must divide 24 evenly"@,
            },
    {
        match self {
            ClaimError::RoundInputCount => "round_inputs.len() must equal group_size",
            ClaimError::TransitionWeightCount => "transition_weights.len() must equal group_size - 1",
            ClaimError::RoundInputSize => "round input count must match 2^high_point.len()",
            ClaimError::GroupOutputSize => "group output count must match 2^high_point.len()",
            ClaimError::FoldedEvaluationCount => "expected 25 folded input evaluations",
            ClaimError::TraceRounds => "trace must contain exactly 24 rounds",
            ClaimError::InstanceCount => "number of instances must be a power of two",
            ClaimError::RoundSizes => "all rounds must have the same number of instances",
            ClaimError::FinalOutputSize => "final output must have the same number of instances",
            ClaimError::GroupSize => "group_size must divide 24 evenly",
        }
    }
}

/// Why a reduction is refused.
#[derive(Debug, Clone, Copy, PartialEq, Eq, Structural)]
pub enum Error {
    /// A prover step out of order.
    SumcheckProver(SumcheckError),
    /// A claim that does not fit.
    InvalidClaim(ClaimError),
    /// A round index that does not exist.
    InvalidRound(usize),
}

/// Input of the group reduction.
#[derive(Debug, Clone, PartialEq, Eq)]
pub struct GroupedRoundReduction<F> {
    /// The claim on the output of the group.
    pub output_claim: BitIndexedMixedClaim<F>,
    /// The first round.
    pub round_start: usize,
    /// The number of rounds.
    pub group_size: usize,
    /// Weights of the `group_size - 1` inner transitions.
    pub transition_weights: Vec<F>,
}

/// Output of the group reduction.
#[derive(Debug, Clone, PartialEq, Eq)]
pub struct GroupedRoundOutput<F> {
    /// The point of the claim on the input of the group.
    pub reduced_high_point: Vec<F>,
    /// The folded lane evaluations of the input at that point.
    pub input_evals: [F; 25],
}

/// The first thing that is wrong with a reduction.
pub open spec fn reduction_fault<F>(
    round_inputs: Seq<&[State]>,
    outputs: nat,
    red: GroupedRoundReduction<F>,
) -> Option<Error> {
    let k = red.group_size as int;
    let n = pow2(red.output_claim.high_point@.len());
    if k == 0 || red.round_start + k > 24 {
        Some(Error::InvalidRound((red.round_start + k) as usize))
    } else if round_inputs.len() != k {
        Some(Error::InvalidClaim(ClaimError::RoundInputCount))
    } else if red.transition_weights@.len() != k - 1 {
        Some(Error::InvalidClaim(ClaimError::TransitionWeightCount))
    } else if exists|r: int| 0 <= r < round_inputs.len() && (#[trigger] round_inputs[r])@.len() != n {
        Some(Error::InvalidClaim(ClaimError::RoundInputSize))
    } else if outputs != n {
        Some(Error::InvalidClaim(ClaimError::GroupOutputSize))
    } else {
        None
    }
}

/// Checks the shape of a reduction.
pub fn validate_grouped_reduction<F>(
    round_inputs: &[&[State]],
    group_output_words: &[State],
    reduction: &GroupedRoundReduction<F>,
) -> (r: Result<(), Error>)
    requires
        reduction.round_start + reduction.group_size <= usize::MAX,
        pow2(reduction.output_claim.high_point@.len()) <= usize::MAX,
    ensures
        r == match reduction_fault(round_inputs@, group_output_words@.len(), *reduction) {
            Some(e) => Err::<(), Error>(e),
            None => Ok::<(), Error>(()),
        },
{
    let k: usize = reduction.group_size;
    if k == 0 || reduction.round_start + k > 24 {
        return Err(Error::InvalidRound(reduction.round_start + k));
    }
    if round_inputs.len() != k {
        return Err(Error::InvalidClaim(ClaimError::RoundInputCount));
    }
    if reduction.transition_weights.len() != k - 1 {
        return Err(Error::InvalidClaim(ClaimError::TransitionWeightCount));
    }
    let expected: usize = power_of_two(reduction.output_claim.high_point.len());
    for r in 0..k
        invariant
            k == round_inputs@.len(),
            expected == pow2(reduction.output_claim.high_point@.len()),
            k == reduction.group_size,
            k > 0,
            reduction.round_start + k <= 24,
            reduction.transition_weights@.len() == k - 1,
            forall|j: int| 0 <= j < r ==> (#[trigger] round_inputs@[j])@.len() == expected,
    {
        let inputs = round_inputs[r];
        if inputs.len() != expected {
            assert(round_inputs@[r as int]@.len() != expected);
            return Err(Error::InvalidClaim(ClaimError::RoundInputSize));
        }
    }
    if group_output_words.len() != expected {
        return Err(Error::InvalidClaim(ClaimError::GroupOutputSize));
    }
    Ok(())
}

/// `2^n`.
pub fn power_of_two(n: usize) -> (r: usize)
    requires
        pow2(n as nat) <= usize::MAX,
    ensures
        r == pow2(n as nat),
    decreases n,
{
    proof {
        vstd::arithmetic::power2::lemma2_to64();
    }
    if n == 0 {
        1
    } else {
        proof {
            vstd::arithmetic::power2::lemma_pow2_unfold(n as nat);
        }
        let half: usize = power_of_two(n - 1);
        2 * half
    }
}

/// The coefficient of the round polynomial of round `r` of a group.
pub open spec fn group_coeff<F: BinaryField>(tw: Seq<F>, k: int, r: int) -> F {
    if r == k - 1 {
        F::one_of()
    } else {
        tw[r]
    }
}

/// Whether the terms are those of a group: round `r` on table `r`, and the residual outputs on
/// the tables that follow.
pub open spec fn are_group_terms<F: BinaryField>(
    rounds: Seq<RoundTerm<F>>,
    outs: Seq<OutputTerm<F>>,
    lane_weights: [F; 25],
    tw: Seq<F>,
    round_start: int,
    k: int,
) -> bool {
    &&& rounds.len() == k
    &&& outs.len() == k - 1
    &&& forall|r: int|
        0 <= r < k ==> (#[trigger] rounds[r]).table == r && rounds[r].round == round_start + r
            && rounds[r].lane_weights == lane_weights && rounds[r].coeff == group_coeff(tw, k, r)
    &&& forall|r: int|
        0 <= r < k - 1 ==> (#[trigger] outs[r]).table == r + 1 && outs[r].lane_weights
            == lane_weights && outs[r].coeff == tw[r]
}

fn group_terms<F: BinaryField>(
    lane_weights: &[F; 25],
    transition_weights: &[F],
    round_start: usize,
    k: usize,
) -> (r: (Vec<RoundTerm<F>>, Vec<OutputTerm<F>>))
    requires
        k > 0,
        round_start + k <= 24,
        transition_weights@.len() == k - 1,
    ensures
        are_group_terms(
            r.0@,
            r.1@,
            *lane_weights,
            transition_weights@,
            round_start as int,
            k as int,
        ),
{
    let mut rounds: Vec<RoundTerm<F>> = Vec::new();
    let mut outs: Vec<OutputTerm<F>> = Vec::new();
    for r in 0..k
        invariant
            k > 0,
            round_start + k <= 24,
            transition_weights@.len() == k - 1,
            rounds@.len() == r,
            outs@.len() == (if r < k {
                r as int
            } else {
                k - 1
            }),
            forall|j: int|
                0 <= j < r ==> (#[trigger] rounds@[j]).table == j && rounds@[j].round == round_start
                    + j && rounds@[j].lane_weights == *lane_weights && rounds@[j].coeff
                    == group_coeff(transition_weights@, k as int, j),
            forall|j: int|
                0 <= j < outs@.len() ==> (#[trigger] outs@[j]).table == j + 1
                    && outs@[j].lane_weights == *lane_weights && outs@[j].coeff
                    == transition_weights@[j],
    {
        if r == k - 1 {
            rounds.push(
                RoundTerm {
                    table: r,
                    lane_weights: *lane_weights,
                    round: round_start + r,
                    coeff: F::one(),
                },
            );
        } else {
            let tw = transition_weights[r];
            rounds.push(
                RoundTerm {
                    table: r,
                    lane_weights: *lane_weights,
                    round: round_start + r,
                    coeff: tw,
                },
            );
            outs.push(OutputTerm { table: r + 1, lane_weights: *lane_weights, coeff: tw });
        }
    }
    (rounds, outs)
}

/// Copies a batch of states into a table.
pub fn words_table<F: BinaryField>(words: &[State]) -> (r: Table<F>)
    ensures
        r.wf(),
        r.size() == words@.len(),
        r is Words,
        r->Words_0@ == words@,
{
    let mut w: Vec<State> = Vec::new();
    let n: usize = words.len();
    for i in 0..n
        invariant
            n == words@.len(),
            w@ =~= words@.take(i as int),
    {
        w.push(words[i]);
    }
    assert(w@ =~= words@);
    Table::Words(w)
}

/// Whether a polynomial is that of a group on the given round inputs.
pub open spec fn is_group_polynomial<F: BinaryField>(
    poly: BatchedPolynomial<F>,
    round_inputs: Seq<&[State]>,
    bit_weights: [F; 64],
    lane_weights: [F; 25],
    tw: Seq<F>,
    round_start: int,
) -> bool {
    &&& poly.bit_weights == bit_weights
    &&& are_group_terms(
        poly.round_terms@,
        poly.output_terms@,
        lane_weights,
        tw,
        round_start,
        round_inputs.len() as int,
    )
    &&& poly.tables@.len() == round_inputs.len()
    &&& forall|r: int|
        0 <= r < round_inputs.len() ==> (#[trigger] poly.tables@[r]) is Words
            && poly.tables@[r]->Words_0@ == round_inputs[r]@
}

/// The sumcheck prover of a group.
pub struct GroupedRoundProver<F> {
    /// The prover of the group's polynomial.
    pub inner: SumProver<F>,
}

impl<F: BinaryField> GroupedRoundProver<F> {
    /// Creates the prover for a claim at `eval_point`. Every round has `2^n` states for the `n`
    /// coordinates of the point.
    pub fn new_from_words(
        round_inputs: &[&[State]],
        bit_weights: [F; 64],
        lane_weights: [F; 25],
        transition_weights: &[F],
        round_start: usize,
        group_size: usize,
        eval_point: Vec<F>,
        mixed_eval: F,
    ) -> (r: Result<Self, SumcheckError>)
        requires
            round_inputs@.len() == group_size,
            group_size > 0,
            round_start + round_inputs@.len() <= 24,
            transition_weights@.len() == round_inputs@.len() - 1,
            pow2(eval_point@.len()) <= usize::MAX,
        ensures
            r is Err == (exists|j: int|
                0 <= j < round_inputs@.len() && (#[trigger] round_inputs@[j])@.len() != pow2(
                    eval_point@.len(),
                )),
            r matches Err(e) ==> e == SumcheckError::MultilinearSizeMismatch,
            r matches Ok(p) ==> {
                &&& p.inner.wf()
                &&& p.inner.point == eval_point
                &&& p.inner.last == RoundCoeffsOrEval::Eval(mixed_eval)
                &&& is_group_polynomial(
                    p.inner.polynomial,
                    round_inputs@,
                    bit_weights,
                    lane_weights,
                    transition_weights@,
                    round_start as int,
                )
            },
    {
        let expected_len: usize = power_of_two(eval_point.len());
        let k: usize = round_inputs.len();
        let mut tables: Vec<Table<F>> = Vec::new();
        for r in 0..k
            invariant
                k == round_inputs@.len(),
                expected_len == pow2(eval_point@.len()),
                tables@.len() == r,
                forall|j: int|
                    0 <= j < r ==> (#[trigger] tables@[j]).wf() && tables@[j].size()
                        == expected_len && tables@[j] is Words && tables@[j]->Words_0@
                        == round_inputs@[j]@,
                forall|j: int|
                    0 <= j < r ==> (#[trigger] round_inputs@[j])@.len() == expected_len,
        {
            let words = round_inputs[r];
            if words.len() != expected_len {
                assert(round_inputs@[r as int]@.len() != pow2(eval_point@.len()));
                return Err(SumcheckError::MultilinearSizeMismatch);
            }
            tables.push(words_table(words));
        }
        let (round_terms, output_terms) = group_terms(
            &lane_weights,
            transition_weights,
            round_start,
            group_size,
        );
        let polynomial = BatchedPolynomial { tables, round_terms, output_terms, bit_weights };
        Ok(GroupedRoundProver { inner: SumProver::new(polynomial, eval_point, mixed_eval) })
    }

    /// The number of variables that are not bound yet.
    pub fn n_vars(&self) -> (r: usize)
        ensures
            r == self.inner.point@.len(),
    {
        self.inner.n_vars()
    }

    /// The number of claims.
    pub fn n_claims(&self) -> (r: usize)
        ensures
            r == 1,
    {
        1
    }

    /// The coordinates of the claim that are not bound yet.
    pub fn eval_point(&self) -> (r: &[F])
        ensures
            r@ == self.inner.point@,
    {
        self.inner.point.as_slice()
    }

    /// Computes the next round polynomial: a list of one, for the one claim.
    pub fn execute(&mut self) -> (r: Result<Vec<RoundCoeffs<F>>, SumcheckError>)
        where F: Send + Sync
        requires
            old(self).inner.wf(),
            old(self).inner.point@.len() > 0,
            pow2(old(self).inner.point@.len()) <= usize::MAX,
        ensures
            final(self).inner.polynomial == old(self).inner.polynomial,
            final(self).inner.point == old(self).inner.point,
            match old(self).inner.last {
                RoundCoeffsOrEval::Coeffs(_) => r == Err::<Vec<RoundCoeffs<F>>, SumcheckError>(
                    SumcheckError::ExpectedFold,
                ) && final(self).inner == old(self).inner,
                RoundCoeffsOrEval::Eval(claim) => {
                    let coeffs = interpolated(
                        claim,
                        old(self).inner.point@.last(),
                        round_at_one(old(self).inner.polynomial, old(self).inner.point@),
                        round_at_inf(old(self).inner.polynomial, old(self).inner.point@),
                    );
                    &&& r is Ok
                    &&& r->Ok_0@ == seq![coeffs]
                    &&& final(self).inner.last == RoundCoeffsOrEval::Coeffs(coeffs)
                },
            },
    {
        match self.inner.execute() {
            Ok(coeffs) => {
                let list: Vec<RoundCoeffs<F>> = vec![coeffs];
                assert(list@ =~= seq![coeffs]);
                Ok(list)
            },
            Err(e) => Err(e),
        }
    }

    /// Binds the highest variable to the challenge of the last round polynomial.
    pub fn fold(&mut self, challenge: F) -> (r: Result<(), SumcheckError>)
        requires
            old(self).inner.wf(),
            old(self).inner.point@.len() > 0,
        ensures
            final(self).inner.wf(),
            match old(self).inner.last {
                RoundCoeffsOrEval::Eval(_) => r == Err::<(), SumcheckError>(
                    SumcheckError::ExpectedExecute,
                ) && final(self).inner == old(self).inner,
                RoundCoeffsOrEval::Coeffs(coeffs) => {
                    &&& r == Ok::<(), SumcheckError>(())
                    &&& final(self).inner.last == RoundCoeffsOrEval::Eval(
                        coeffs_at(coeffs, challenge),
                    )
                    &&& final(self).inner.point@ == old(self).inner.point@.drop_last()
                    &&& polynomial_folds(
                        old(self).inner.polynomial,
                        final(self).inner.polynomial,
                        challenge,
                    )
                },
            },
    {
        self.inner.fold(challenge)
    }

    /// The folded lane evaluations of the group's input, once every variable is bound.
    pub fn finish(&self) -> (r: Result<Vec<F>, SumcheckError>)
        requires
            self.inner.wf(),
            self.inner.polynomial.tables@.len() > 0,
        ensures
            r is Ok == (self.inner.point@.len() == 0),
            r matches Err(e) ==> e == match self.inner.last {
                RoundCoeffsOrEval::Coeffs(_) => SumcheckError::ExpectedFold,
                RoundCoeffsOrEval::Eval(_) => SumcheckError::ExpectedExecute,
            },
            r matches Ok(evals) ==> evals@ == folded_lanes(
                self.inner.polynomial.tables@[0].block(0),
                self.inner.polynomial.bit_weights@,
            ),
    {
        let r = self.inner.finish(1);
        proof {
            if let Ok(evals) = &r {
                assert(evals@ =~= folded_lanes(
                    self.inner.polynomial.tables@[0].block(0),
                    self.inner.polynomial.bit_weights@,
                ));
            }
        }
        r
    }
}

/// The blocks of the round inputs at a point.
pub open spec fn inputs_at<F: BinaryField>(round_inputs: Seq<&[State]>, point: Seq<F>) -> spec_fn(
    int,
) -> Seq<F> {
    |r: int| words_at(round_inputs[r]@, point)
}

/// The value of a group's polynomial on the given blocks.
pub open spec fn group_value<F: BinaryField>(
    blocks: spec_fn(int) -> Seq<F>,
    lane_weights: Seq<F>,
    tw: Seq<F>,
    round_start: int,
    k: int,
    bw: Seq<F>,
) -> F {
    round_value(blocks(k - 1), lane_weights, round_start + k - 1, bw).plus(
        sum(
            |r: int|
                tw[r].times(
                    round_value(blocks(r), lane_weights, round_start + r, bw).plus(
                        output_value(blocks(r + 1), lane_weights, bw),
                    ),
                ),
            (k - 1) as nat,
        ),
    )
}

/// The reversed list.
pub fn reversed<F: BinaryField>(v: &Vec<F>) -> (r: Vec<F>)
    ensures
        r@ == v@.reverse(),
{
    let mut r: Vec<F> = Vec::new();
    let n: usize = v.len();
    for i in 0..n
        invariant
            n == v@.len(),
            r@.len() == i,
            forall|k: int| 0 <= k < i ==> r@[k] == v@[n - 1 - k],
    {
        r.push(v[n - 1 - i]);
    }
    assert(r@ =~= v@.reverse());
    r
}

/// Recomputes a group's polynomial at the reduced point from the round inputs, with the folded
/// lane evaluations of the group's input.
pub fn group_evals_at<F: BinaryField>(
    round_inputs: &[&[State]],
    reduction: &GroupedRoundReduction<F>,
    bit_weights: &[F; 64],
    reduced_high_point: &[F],
) -> (r: (F, [F; 25]))
    requires
        reduction.group_size > 0,
        round_inputs@.len() == reduction.group_size,
        reduction.round_start + reduction.group_size <= 24,
        reduction.transition_weights@.len() == reduction.group_size - 1,
        forall|j: int|
            0 <= j < round_inputs@.len() ==> (#[trigger] round_inputs@[j])@.len() == pow2(
                reduced_high_point@.len(),
            ),
    ensures
        r.0 == group_value(
            inputs_at(round_inputs@, reduced_high_point@),
            reduction.output_claim.lane_weights@,
            reduction.transition_weights@,
            reduction.round_start as int,
            reduction.group_size as int,
            bit_weights@,
        ),
        r.1@ == folded_lanes(words_at(round_inputs@[0]@, reduced_high_point@), bit_weights@),
{
    let k: usize = reduction.group_size;
    let lw = &reduction.output_claim.lane_weights;
    let ghost rp = reduced_high_point@;
    let ghost blocks = inputs_at(round_inputs@, rp);
    let ghost bw = bit_weights@;
    let ghost tw = reduction.transition_weights@;
    let ghost start = reduction.round_start as int;
    let mut lows: Vec<Vec<F>> = Vec::new();
    for r in 0..k
        invariant
            k == round_inputs@.len(),
            rp == reduced_high_point@,
            blocks == inputs_at(round_inputs@, rp),
            forall|j: int|
                0 <= j < round_inputs@.len() ==> (#[trigger] round_inputs@[j])@.len() == pow2(
                    rp.len(),
                ),
            lows@.len() == r,
            forall|j: int| 0 <= j < r ==> (#[trigger] lows@[j])@ == blocks(j),
    {
        let words = round_inputs[r];
        assert(round_inputs@[r as int]@.len() == pow2(rp.len()));
        lows.push(evaluate_lane_low_vectors_from_words(words, reduced_high_point));
    }
    let input_evals = fold_low_vectors(&lows[0], bit_weights);
    let last = fused_round_eval(&lows[k - 1], lw, reduction.round_start + k - 1, bit_weights);
    let mut residual = F::zero();
    let ghost f = |r: int|
        tw[r].times(
            round_value(blocks(r), lw@, start + r, bw).plus(output_value(blocks(r + 1), lw@, bw)),
        );
    for r in 0..k - 1
        invariant
            k == round_inputs@.len(),
            k == reduction.group_size,
            k > 0,
            start == reduction.round_start,
            start + k <= 24,
            tw == reduction.transition_weights@,
            tw.len() == k - 1,
            bw == bit_weights@,
            lows@.len() == k,
            blocks == inputs_at(round_inputs@, rp),
            forall|j: int| 0 <= j < k ==> (#[trigger] lows@[j])@ == blocks(j),
            f == (|r: int|
                tw[r].times(
                    round_value(blocks(r), lw@, start + r, bw).plus(
                        output_value(blocks(r + 1), lw@, bw),
                    ),
                )),
            residual == sum(f, r as nat),
    {
        assert(lows@[r as int]@ == blocks(r as int) && lows@[r + 1]@ == blocks(r + 1));
        let chi = fused_round_eval(&lows[r], lw, reduction.round_start + r, bit_weights);
        let out = weighted_output_block_eval_at_hi(&lows[r + 1], lw, bit_weights);
        residual = residual.add(reduction.transition_weights[r].mul(chi.add(out)));
    }
    (last.add(residual), input_evals)
}

/// The batched value of a group's terms is the value of the group's polynomial.
pub proof fn lemma_group_terms_value<F: BinaryField>(
    blocks: spec_fn(int) -> Seq<F>,
    rounds: Seq<RoundTerm<F>>,
    outs: Seq<OutputTerm<F>>,
    lane_weights: [F; 25],
    tw: Seq<F>,
    round_start: int,
    k: int,
    bw: Seq<F>,
)
    requires
        k > 0,
        are_group_terms(rounds, outs, lane_weights, tw, round_start, k),
    ensures
        batched_value(blocks, rounds, outs, bw) == group_value(
            blocks,
            lane_weights@,
            tw,
            round_start,
            k,
            bw,
        ),
{
    let lw = lane_weights@;
    let m = (k - 1) as nat;
    let f = |t: int|
        rounds[t].coeff.times(
            round_value(
                blocks(rounds[t].table as int),
                rounds[t].lane_weights@,
                rounds[t].round as int,
                bw,
            ),
        );
    let g = |u: int|
        outs[u].coeff.times(output_value(blocks(outs[u].table as int), outs[u].lane_weights@, bw));
    let a = |r: int| tw[r].times(round_value(blocks(r), lw, round_start + r, bw));
    let b = |r: int| tw[r].times(output_value(blocks(r + 1), lw, bw));
    let ab = |r: int|
        tw[r].times(
            round_value(blocks(r), lw, round_start + r, bw).plus(
                output_value(blocks(r + 1), lw, bw),
            ),
        );
    assert forall|r: int| 0 <= r < m implies #[trigger] f(r) == a(r) by {
        assert(rounds[r].table == r);
    }
    assert forall|r: int| 0 <= r < m implies #[trigger] g(r) == b(r) by {
        assert(outs[r].table == r + 1);
    }
    assert forall|r: int| 0 <= r < m implies #[trigger] ab(r) == a(r).plus(b(r)) by {
        lemma_distr(
            round_value(blocks(r), lw, round_start + r, bw),
            output_value(blocks(r + 1), lw, bw),
            tw[r],
        );
    }
    lemma_sum_ext(f, a, m);
    lemma_sum_ext(g, b, m);
    lemma_sum_ext(ab, |r: int| a(r).plus(b(r)), m);
    lemma_sum_plus(a, b, m);
    assert(sum(f, k as nat) == sum(f, m).plus(f(k - 1)));
    assert(rounds[k - 1].table == k - 1);
    let last = round_value(blocks(k - 1), lw, round_start + k - 1, bw);
    lemma_zero(last);
    // (sum a + last) + sum b = last + (sum a + sum b)
    F::lemma_plus(sum(a, m), last, sum(b, m));
    F::lemma_plus(last, sum(a, m), sum(b, m));
}

/// On the states of a valid trace the group's polynomial is the mixed output of the group: the
/// residuals of the inner transitions vanish.
pub proof fn lemma_group_value_of_words<F: BinaryField>(
    states: spec_fn(int) -> Seq<u64>,
    lw: Seq<F>,
    tw: Seq<F>,
    round_start: int,
    k: int,
    bw: Seq<F>,
)
    requires
        k > 0,
        0 <= round_start,
        round_start + k <= 24,
        bw.len() == 64,
        forall|r: int| 0 <= r <= k ==> (#[trigger] states(r)).len() == 25,
        forall|r: int| 0 <= r < k ==> states(r + 1) == #[trigger] round_state(
            states(r),
            round_start + r,
        ),
    ensures
        group_value(|r: int| bit_block::<F>(states(r)), lw, tw, round_start, k, bw)
            == output_value(bit_block::<F>(states(k)), lw, bw),
{
    let blocks = |r: int| bit_block::<F>(states(r));
    let f = |r: int|
        tw[r].times(
            round_value(blocks(r), lw, round_start + r, bw).plus(
                output_value(blocks(r + 1), lw, bw),
            ),
        );
    assert forall|r: int| 0 <= r < k - 1 implies #[trigger] f(r) == F::zero_of() by {
        assert(states(r).len() == 25);
        lemma_round_of_words(states(r), lw, round_start + r, bw);
        assert(states(r + 1) == round_state(states(r), round_start + r));
        let x = output_value(blocks(r + 1), lw, bw);
        F::lemma_plus(x, x, x);
        lemma_zero(tw[r]);
    }
    lemma_sum_zero(f, (k - 1) as nat);
    let last = k - 1;
    assert(states(last).len() == 25);
    lemma_round_of_words(states(last), lw, round_start + last, bw);
    assert(states(last + 1) == round_state(states(last), round_start + last));
    lemma_zero(output_value(blocks(k), lw, bw));
}

proof fn lemma_mixed_sum<F: BinaryField>(
    w: spec_fn(int) -> F,
    g: spec_fn(int) -> spec_fn(int, int) -> F,
    lw: Seq<F>,
    bw: Seq<F>,
    n: nat,
)
    ensures
        mixed(
            |lane: int, bit: int| sum(|i: int| w(i).times(g(i)(lane, bit)), n),
            lw,
            bw,
        ) == sum(|i: int| w(i).times(mixed(g(i), lw, bw)), n),
    decreases n,
{
    let all = |lane: int, bit: int| sum(|i: int| w(i).times(g(i)(lane, bit)), n);
    let h = |i: int| w(i).times(mixed(g(i), lw, bw));
    if n == 0 {
        let zero = |lane: int, bit: int| F::zero_of().times(F::zero_of());
        lemma_zero(F::zero_of());
        lemma_mixed_ext(all, zero, lw, bw);
        lemma_mixed_scale(F::zero_of(), |lane: int, bit: int| F::zero_of(), lw, bw);
        lemma_mixed_ext(
            zero,
            |lane: int, bit: int|
                F::zero_of().times((|lane: int, bit: int| F::zero_of())(lane, bit)),
            lw,
            bw,
        );
        lemma_zero(mixed(|lane: int, bit: int| F::zero_of(), lw, bw));
    } else {
        let m = (n - 1) as nat;
        lemma_mixed_sum(w, g, lw, bw, m);
        let short = |lane: int, bit: int| sum(|i: int| w(i).times(g(i)(lane, bit)), m);
        let gm = g(m as int);
        let last = |lane: int, bit: int| w(m as int).times(gm(lane, bit));
        let both = |lane: int, bit: int| short(lane, bit).plus(last(lane, bit));
        assert forall|lane: int, bit: int| 0 <= lane < 25 && 0 <= bit < 64 implies #[trigger] all(
            lane,
            bit,
        ) == both(lane, bit) by {
            let t = |i: int| w(i).times(g(i)(lane, bit));
            assert(sum(t, n) == sum(t, m).plus(t(m as int)));
        }
        lemma_mixed_ext(all, both, lw, bw);
        lemma_mixed_plus(short, last, lw, bw);
        lemma_mixed_scale(w(m as int), gm, lw, bw);
        assert(sum(h, n) == sum(h, m).plus(h(m as int)));
    }
}

/// The mixed evaluation of a batch of states at a point is the multilinear extension of the mixed
/// outputs of its states.
pub proof fn lemma_mixed_eval_of_words<F: BinaryField>(
    words: Seq<State>,
    point: Seq<F>,
    lw: Seq<F>,
    bw: Seq<F>,
)
    requires
        bw.len() == 64,
        lw.len() == 25,
    ensures
        mixed_eval_of(lw, folded_lanes(words_at(words, point), bw)) == output_value(
            words_at(words, point),
            lw,
            bw,
        ),
        output_value(words_at(words, point), lw, bw) == sum(
            |i: int|
                eq_weight(point, i).times(output_value(bit_block::<F>(words[i]@), lw, bw)),
            pow2(point.len()),
        ),
{
    let b = words_at(words, point);
    let n = pow2(point.len());
    let f = |lane: int, bit: int| at(b, lane, bit);
    let p = |i: int| lw[i].times(folded_lanes(b, bw)[i]);
    let q = |lane: int| lw[lane].times(sum(|bit: int| bw[bit].times(f(lane, bit)), 64));
    assert forall|l: int| 0 <= l < 25 implies #[trigger] p(l) == q(l) by {
        lemma_sum_ext(
            |bit: int| bw[bit].times(at(b, l, bit)),
            |bit: int| bw[bit].times(f(l, bit)),
            64,
        );
    }
    lemma_sum_ext(p, q, 25);
    let w = |i: int| eq_weight(point, i);
    let g = |i: int| (|lane: int, bit: int| at(bit_block::<F>(words[i]@), lane, bit));
    let all = |lane: int, bit: int| sum(|i: int| w(i).times(g(i)(lane, bit)), n);
    assert forall|lane: int, bit: int| 0 <= lane < 25 && 0 <= bit < 64 implies #[trigger] f(
        lane,
        bit,
    ) == all(lane, bit) by {
        let j = 64 * lane + bit;
        assert(j / 64 == lane && j % 64 == bit);
        lemma_sum_ext(
            |i: int| eq_weight(point, i).times(indicator::<F>(bit64(words[i]@[j / 64], j % 64))),
            |i: int| w(i).times(g(i)(lane, bit)),
            n,
        );
    }
    lemma_mixed_ext(f, all, lw, bw);
    lemma_mixed_sum(w, g, lw, bw, n);
    lemma_sum_ext(
        |i: int| w(i).times(mixed(g(i), lw, bw)),
        |i: int| eq_weight(point, i).times(output_value(bit_block::<F>(words[i]@), lw, bw)),
        n,
    );
}

/// The claim that a group's prover starts from is true of valid traces: the multilinear extension
/// of the group's polynomial at a point is the mixed evaluation of the group's output there.
pub proof fn lemma_group_claim<F: BinaryField>(
    poly: BatchedPolynomial<F>,
    round_inputs: Seq<&[State]>,
    outputs: Seq<State>,
    point: Seq<F>,
    bit_weights: [F; 64],
    lane_weights: [F; 25],
    tw: Seq<F>,
    round_start: int,
)
    requires
        round_inputs.len() > 0,
        0 <= round_start,
        round_start + round_inputs.len() <= 24,
        is_group_polynomial(poly, round_inputs, bit_weights, lane_weights, tw, round_start),
        forall|r: int, i: int|
            0 <= r < round_inputs.len() && 0 <= i < pow2(point.len()) ==> (if r + 1
                < round_inputs.len() {
                round_inputs[r + 1]@[i]@
            } else {
                outputs[i]@
            }) == round_state((#[trigger] round_inputs[r]@[i])@, round_start + r),
    ensures
        claim_of(poly, point) == mixed_eval_of(
            lane_weights@,
            folded_lanes(words_at(outputs, point), bit_weights@),
        ),
{
    let k = round_inputs.len() as int;
    let n = pow2(point.len());
    let (lw, bw) = (lane_weights@, bit_weights@);
    let f = |i: int| eq_weight(point, i).times(poly.value(i));
    let g = |i: int| eq_weight(point, i).times(output_value(bit_block::<F>(outputs[i]@), lw, bw));
    assert forall|i: int| 0 <= i < n implies #[trigger] f(i) == g(i) by {
        let states = |r: int|
            if r < k {
                round_inputs[r]@[i]@
            } else {
                outputs[i]@
            };
        assert forall|r: int| 0 <= r < k implies states(r + 1) == #[trigger] round_state(
            states(r),
            round_start + r,
        ) by {
            assert(round_inputs[r]@[i]@ == states(r));
        }
        lemma_group_value_of_words(states, lw, tw, round_start, k, bw);
        let blocks = poly.blocks_at(i);
        let bits = |r: int| bit_block::<F>(states(r));
        lemma_group_terms_value(
            blocks,
            poly.round_terms@,
            poly.output_terms@,
            lane_weights,
            tw,
            round_start,
            k,
            bw,
        );
        assert forall|r: int| 0 <= r < k implies #[trigger] blocks(r) == bits(r) by {
            assert(poly.tables@[r]->Words_0@ == round_inputs[r]@);
        }
        lemma_group_value_ext(blocks, bits, lw, tw, round_start, k, bw);
    }
    lemma_sum_ext(f, g, n);
    lemma_mixed_eval_of_words(outputs, point, lw, bw);
}

proof fn lemma_group_value_ext<F: BinaryField>(
    a: spec_fn(int) -> Seq<F>,
    b: spec_fn(int) -> Seq<F>,
    lw: Seq<F>,
    tw: Seq<F>,
    round_start: int,
    k: int,
    bw: Seq<F>,
)
    requires
        k > 0,
        forall|r: int| 0 <= r < k ==> #[trigger] a(r) == b(r),
    ensures
        group_value(a, lw, tw, round_start, k, bw) == group_value(b, lw, tw, round_start, k, bw),
{
    let f = |r: int|
        tw[r].times(
            round_value(a(r), lw, round_start + r, bw).plus(output_value(a(r + 1), lw, bw)),
        );
    let g = |r: int|
        tw[r].times(
            round_value(b(r), lw, round_start + r, bw).plus(output_value(b(r + 1), lw, bw)),
        );
    assert forall|r: int| 0 <= r < k - 1 implies #[trigger] f(r) == g(r) by {
        assert(a(r) == b(r) && a(r + 1) == b(r + 1));
    }
    lemma_sum_ext(f, g, (k - 1) as nat);
    assert(a(k - 1) == b(k - 1));
}

} // verus!
