//! KeccakCheck in parallel groups: the 24 rounds are split into groups of `group_size`, and at
//! each layer the polynomials of all groups are batched into one sumcheck.
//!
//! At the first layer the batch also holds the boundary residuals
//! `beta_g * (chi_iota_g(x) - S_boundary(x))` of all groups but the last.
use super::batch::{BatchedPolynomial, OutputTerm, RoundTerm, Table};
use super::claims::{folded_lanes, CompactTrace};
use super::grouped_round::{power_of_two, words_table, ClaimError, Error};
use super::sumcheck::{
    coeffs_at, interpolated, polynomial_folds, round_at_inf, round_at_one, RoundCoeffs,
    RoundCoeffsOrEval, SumProver, SumcheckError,
};
use crate::field::BinaryField;
use crate::keccak_prove::trace::State;
use crate::verify::repeated_monster::is_pow2;
use vstd::arithmetic::power2::pow2;
use vstd::prelude::*;

verus! {

/// The first thing that is wrong with the arguments.
pub open spec fn parallel_fault(trace: CompactTrace, group_size: int) -> Option<ClaimError> {
    if trace.round_inputs@.len() != 24 {
        Some(ClaimError::TraceRounds)
    } else if !is_pow2(trace.round_inputs@[0]@.len()) {
        Some(ClaimError::InstanceCount)
    } else if exists|r: int|
        0 <= r < 24 && (#[trigger] trace.round_inputs@[r])@.len()
            != trace.round_inputs@[0]@.len() {
        Some(ClaimError::RoundSizes)
    } else if trace.final_output@.len() != trace.round_inputs@[0]@.len() {
        Some(ClaimError::FinalOutputSize)
    } else if group_size == 0 || 24int % group_size != 0 {
        Some(ClaimError::GroupSize)
    } else {
        None
    }
}

/// Whether a number is a power of two.
pub fn is_power_of_two(n: usize) -> (r: bool)
    ensures
        r == is_pow2(n as nat),
    decreases n,
{
    proof {
        vstd::arithmetic::power2::lemma2_to64();
    }
    if n == 0 {
        proof {
            if is_pow2(0) {
                let k = choose|k: nat| 0 == pow2(k);
                vstd::arithmetic::power2::lemma_pow2_pos(k);
            }
        }
        false
    } else if n == 1 {
        assert(1 == pow2(0));
        true
    } else if n % 2 == 1 {
        proof {
            if is_pow2(n as nat) {
                let k = choose|k: nat| n as nat == pow2(k);
                assert(k > 0);
                vstd::arithmetic::power2::lemma_pow2_unfold(k);
            }
        }
        false
    } else {
        let r: bool = is_power_of_two(n / 2);
        proof {
            if r {
                let k = choose|k: nat| n as nat / 2 == pow2(k);
                vstd::arithmetic::power2::lemma_pow2_unfold(k + 1);
                assert(n as nat == pow2(k + 1));
            }
            if is_pow2(n as nat) {
                let k = choose|k: nat| n as nat == pow2(k);
                assert(k > 0);
                vstd::arithmetic::power2::lemma_pow2_unfold(k);
                assert(n as nat / 2 == pow2((k - 1) as nat));
            }
        }
        r
    }
}

/// Checks the shape of a trace and the group size.
pub fn validate_parallel_args(trace: &CompactTrace, group_size: usize) -> (r: Result<(), Error>)
    ensures
        r == match parallel_fault(*trace, group_size as int) {
            Some(e) => Err::<(), Error>(Error::InvalidClaim(e)),
            None => Ok::<(), Error>(()),
        },
        r is Ok ==> trace.shaped(),
{
    if trace.round_inputs.len() != 24 {
        return Err(Error::InvalidClaim(ClaimError::TraceRounds));
    }
    let n_instances: usize = trace.round_inputs[0].len();
    if !is_power_of_two(n_instances) {
        return Err(Error::InvalidClaim(ClaimError::InstanceCount));
    }
    for r in 0..24
        invariant
            trace.round_inputs@.len() == 24,
            n_instances == trace.round_inputs@[0]@.len(),
            is_pow2(n_instances as nat),
            forall|j: int| 0 <= j < r ==> (#[trigger] trace.round_inputs@[j])@.len() == n_instances,
    {
        let words = &trace.round_inputs[r];
        if words.len() != n_instances {
            assert(trace.round_inputs@[r as int]@.len() != trace.round_inputs@[0]@.len());
            return Err(Error::InvalidClaim(ClaimError::RoundSizes));
        }
    }
    if trace.final_output.len() != n_instances {
        return Err(Error::InvalidClaim(ClaimError::FinalOutputSize));
    }
    if group_size == 0 || 24 % group_size != 0 {
        return Err(Error::InvalidClaim(ClaimError::GroupSize));
    }
    Ok(())
}

/// The round of a group at a layer: the last round first.
pub open spec fn round_at(group: int, group_size: int, layer: int) -> int {
    group * group_size + (group_size - 1 - layer)
}

/// The rounds and boundaries of the groups lie within the permutation.
pub proof fn lemma_group_bounds(group: int, group_size: int, n_groups: int, layer: int)
    requires
        0 < group_size,
        n_groups * group_size == 24,
        0 <= group < n_groups,
        0 <= layer < group_size,
    ensures
        0 <= round_at(group, group_size, layer) < 24,
        0 < (group + 1) * group_size <= 24,
        group + 1 < n_groups ==> (group + 1) * group_size < 24,
        group + 1 == n_groups ==> (group + 1) * group_size == 24,
        round_at(group, group_size, 0) + 1 == (group + 1) * group_size,
        0 <= group * group_size,
{
    assert(0 <= group * group_size) by (nonlinear_arith)
        requires
            0 <= group,
            0 < group_size,
    ;
    assert((group + 1) * group_size == group * group_size + group_size) by (nonlinear_arith);
    assert((group + 1) * group_size <= n_groups * group_size) by (nonlinear_arith)
        requires
            group + 1 <= n_groups,
            0 < group_size,
    ;
    if group + 1 < n_groups {
        assert((group + 1) * group_size + group_size <= n_groups * group_size) by (nonlinear_arith)
            requires
                group + 2 <= n_groups,
                0 < group_size,
        ;
    }
}

/// The round of a group at a layer: the last round first.
pub fn group_round(group: usize, group_size: usize, layer: usize, n_groups: usize) -> (r: usize)
    requires
        0 < group_size <= 24,
        n_groups * group_size == 24,
        group < n_groups,
        layer < group_size,
    ensures
        r == round_at(group as int, group_size as int, layer as int),
        r < 24,
{
    proof {
        lemma_group_bounds(group as int, group_size as int, n_groups as int, layer as int);
    }
    group * group_size + (group_size - 1 - layer)
}

/// The states after the last round of a group.
pub fn group_boundary_output(
    trace: &CompactTrace,
    group: usize,
    group_size: usize,
    n_groups: usize,
) -> (r: &[State])
    requires
        trace.shaped(),
        0 < group_size <= 24,
        n_groups * group_size == 24,
        group < n_groups,
    ensures
        r@ == trace.states((group + 1) * group_size),
        r@.len() == trace.final_output@.len(),
{
    proof {
        lemma_group_bounds(group as int, group_size as int, n_groups as int, 0);
    }
    let end_round: usize = (group + 1) * group_size;
    if end_round >= 24 {
        trace.final_output.as_slice()
    } else {
        trace.round_inputs[end_round].as_slice()
    }
}

/// The effective coefficient of a group: its batch weight, plus its residual weight where it has
/// one.
pub open spec fn effective<F: BinaryField>(batch: Seq<F>, residual: Seq<F>, g: int) -> F {
    if g < residual.len() {
        batch[g].plus(residual[g])
    } else {
        batch[g]
    }
}

/// Whether the terms batch the groups: round polynomials on the first tables, boundary outputs on
/// the tables that follow.
pub open spec fn are_parallel_terms<F: BinaryField>(
    rounds_terms: Seq<RoundTerm<F>>,
    outs: Seq<OutputTerm<F>>,
    lane_weights: Seq<[F; 25]>,
    batch: Seq<F>,
    residual: Seq<F>,
    rounds: Seq<usize>,
) -> bool {
    &&& rounds_terms.len() == rounds.len()
    &&& outs.len() == residual.len()
    &&& forall|g: int|
        0 <= g < rounds.len() ==> (#[trigger] rounds_terms[g]).table == g && rounds_terms[g].round
            == rounds[g] && rounds_terms[g].lane_weights == lane_weights[g]
            && rounds_terms[g].coeff == effective(batch, residual, g)
    &&& forall|g: int|
        0 <= g < residual.len() ==> (#[trigger] outs[g]).table == rounds.len() + g
            && outs[g].lane_weights == lane_weights[g] && outs[g].coeff == residual[g]
}

/// The sumcheck prover of one layer of all groups.
pub struct BatchedParallelProver<F> {
    /// The prover of the batched polynomial.
    pub inner: SumProver<F>,
    /// The number of groups.
    pub n_groups: usize,
}

/// Whether the tables hold the words of the groups, then those of the boundaries.
pub open spec fn are_parallel_tables<F: BinaryField>(
    tables: Seq<Table<F>>,
    group_words: Seq<&[State]>,
    boundary_words: Seq<&[State]>,
) -> bool {
    &&& tables.len() == group_words.len() + boundary_words.len()
    &&& forall|g: int|
        0 <= g < group_words.len() ==> (#[trigger] tables[g]) is Words && tables[g]->Words_0@
            == group_words[g]@
    &&& forall|b: int|
        0 <= b < boundary_words.len() ==> (#[trigger] tables[group_words.len() + b]) is Words
            && tables[group_words.len() + b]->Words_0@ == boundary_words[b]@
}

/// Whether some list of words has another length than `n`.
pub open spec fn size_mismatch(words: Seq<&[State]>, n: nat) -> bool {
    exists|g: int| 0 <= g < words.len() && (#[trigger] words[g])@.len() != n
}

impl<F: BinaryField> BatchedParallelProver<F> {
    /// Creates the prover of a layer without boundaries.
    pub fn new(
        group_words: &Vec<&[State]>,
        bit_weights: [F; 64],
        group_lane_weights: &Vec<[F; 25]>,
        batch_weights: &Vec<F>,
        rounds: &Vec<usize>,
        eval_point: Vec<F>,
        batched_eval: F,
    ) -> (r: Result<Self, SumcheckError>)
        requires
            group_lane_weights@.len() == group_words@.len(),
            batch_weights@.len() == group_words@.len(),
            rounds@.len() == group_words@.len(),
            forall|g: int| 0 <= g < rounds@.len() ==> #[trigger] rounds@[g] < 24,
            pow2(eval_point@.len()) <= usize::MAX,
        ensures
            r is Err == size_mismatch(group_words@, pow2(eval_point@.len())),
            r matches Err(e) ==> e == SumcheckError::MultilinearSizeMismatch,
            r matches Ok(p) ==> {
                &&& p.inner.wf()
                &&& p.n_groups == group_words@.len()
                &&& p.inner.point == eval_point
                &&& p.inner.last == RoundCoeffsOrEval::Eval(batched_eval)
                &&& p.inner.polynomial.bit_weights == bit_weights
                &&& are_parallel_tables(
                    p.inner.polynomial.tables@,
                    group_words@,
                    Seq::<&[State]>::empty(),
                )
                &&& are_parallel_terms(
                    p.inner.polynomial.round_terms@,
                    p.inner.polynomial.output_terms@,
                    group_lane_weights@,
                    batch_weights@,
                    Seq::<F>::empty(),
                    rounds@,
                )
            },
    {
        let n_groups: usize = group_words.len();
        let boundary_words: Vec<&[State]> = Vec::new();
        let residual_weights: Vec<F> = Vec::new();
        let r = Self::new_with_boundaries(
            group_words,
            bit_weights,
            group_lane_weights,
            batch_weights,
            rounds,
            eval_point,
            batched_eval,
            &boundary_words,
            &residual_weights,
        );
        assert(residual_weights@ =~= Seq::<F>::empty());
        assert(boundary_words@ =~= Seq::<&[State]>::empty());
        r
    }

    /// Creates the prover of a layer with boundary residuals.
    pub fn new_with_boundaries(
        group_words: &Vec<&[State]>,
        bit_weights: [F; 64],
        group_lane_weights: &Vec<[F; 25]>,
        batch_weights: &Vec<F>,
        rounds: &Vec<usize>,
        eval_point: Vec<F>,
        batched_eval: F,
        boundary_words: &Vec<&[State]>,
        residual_weights: &Vec<F>,
    ) -> (r: Result<Self, SumcheckError>)
        requires
            group_lane_weights@.len() == group_words@.len(),
            batch_weights@.len() == group_words@.len(),
            rounds@.len() == group_words@.len(),
            boundary_words@.len() == residual_weights@.len(),
            boundary_words@.len() <= group_words@.len(),
            group_words@.len() + boundary_words@.len() <= usize::MAX,
            forall|g: int| 0 <= g < rounds@.len() ==> #[trigger] rounds@[g] < 24,
            pow2(eval_point@.len()) <= usize::MAX,
        ensures
            r is Err == (size_mismatch(group_words@, pow2(eval_point@.len())) || size_mismatch(
                boundary_words@,
                pow2(eval_point@.len()),
            )),
            r matches Err(e) ==> e == SumcheckError::MultilinearSizeMismatch,
            r matches Ok(p) ==> {
                &&& p.inner.wf()
                &&& p.n_groups == group_words@.len()
                &&& p.inner.point == eval_point
                &&& p.inner.last == RoundCoeffsOrEval::Eval(batched_eval)
                &&& p.inner.polynomial.bit_weights == bit_weights
                &&& are_parallel_tables(
                    p.inner.polynomial.tables@,
                    group_words@,
                    boundary_words@,
                )
                &&& are_parallel_terms(
                    p.inner.polynomial.round_terms@,
                    p.inner.polynomial.output_terms@,
                    group_lane_weights@,
                    batch_weights@,
                    residual_weights@,
                    rounds@,
                )
            },
    {
        let expected_len: usize = power_of_two(eval_point.len());
        let n_groups: usize = group_words.len();
        let n_bounds: usize = boundary_words.len();
        let mut tables: Vec<Table<F>> = Vec::new();
        let mut round_terms: Vec<RoundTerm<F>> = Vec::new();
        let mut output_terms: Vec<OutputTerm<F>> = Vec::new();
        for g in 0..n_groups
            invariant
                n_groups == group_words@.len(),
                n_bounds == residual_weights@.len(),
                n_bounds <= n_groups,
                group_lane_weights@.len() == n_groups,
                batch_weights@.len() == n_groups,
                rounds@.len() == n_groups,
                expected_len == pow2(eval_point@.len()),
                forall|j: int| 0 <= j < rounds@.len() ==> #[trigger] rounds@[j] < 24,
                tables@.len() == g,
                round_terms@.len() == g,
                forall|j: int|
                    0 <= j < g ==> (#[trigger] group_words@[j])@.len() == expected_len,
                forall|j: int|
                    0 <= j < g ==> (#[trigger] tables@[j]).wf() && tables@[j].size()
                        == expected_len && tables@[j] is Words && tables@[j]->Words_0@
                        == group_words@[j]@,
                forall|j: int|
                    0 <= j < g ==> (#[trigger] round_terms@[j]).table == j
                        && round_terms@[j].round == rounds@[j] && round_terms@[j].lane_weights
                        == group_lane_weights@[j] && round_terms@[j].coeff == effective(
                        batch_weights@,
                        residual_weights@,
                        j,
                    ),
        {
            let words = group_words[g];
            if words.len() != expected_len {
                assert(group_words@[g as int]@.len() != pow2(eval_point@.len()));
                return Err(SumcheckError::MultilinearSizeMismatch);
            }
            tables.push(words_table(words));
            let coeff = if g < n_bounds {
                batch_weights[g].add(residual_weights[g])
            } else {
                batch_weights[g]
            };
            round_terms.push(
                RoundTerm {
                    table: g,
                    lane_weights: group_lane_weights[g],
                    round: rounds[g],
                    coeff,
                },
            );
        }
        for b in 0..n_bounds
            invariant
                n_groups == group_words@.len(),
                n_bounds == residual_weights@.len(),
                n_bounds == boundary_words@.len(),
                n_bounds <= n_groups,
                n_groups + n_bounds <= usize::MAX,
                group_lane_weights@.len() == n_groups,
                expected_len == pow2(eval_point@.len()),
                tables@.len() == n_groups + b,
                output_terms@.len() == b,
                forall|j: int|
                    0 <= j < n_groups ==> (#[trigger] group_words@[j])@.len() == expected_len,
                forall|j: int|
                    0 <= j < b ==> (#[trigger] boundary_words@[j])@.len() == expected_len,
                forall|j: int|
                    0 <= j < n_groups ==> (#[trigger] tables@[j]).wf() && tables@[j].size()
                        == expected_len && tables@[j] is Words && tables@[j]->Words_0@
                        == group_words@[j]@,
                forall|j: int|
                    n_groups <= j < n_groups + b ==> (#[trigger] tables@[j]).wf()
                        && tables@[j].size() == expected_len && tables@[j] is Words
                        && tables@[j]->Words_0@ == boundary_words@[j - n_groups]@,
                forall|j: int|
                    0 <= j < b ==> (#[trigger] output_terms@[j]).table == n_groups + j
                        && output_terms@[j].lane_weights == group_lane_weights@[j]
                        && output_terms@[j].coeff == residual_weights@[j],
        {
            let words = boundary_words[b];
            if words.len() != expected_len {
                assert(boundary_words@[b as int]@.len() != pow2(eval_point@.len()));
                return Err(SumcheckError::MultilinearSizeMismatch);
            }
            tables.push(words_table(words));
            output_terms.push(
                OutputTerm {
                    table: n_groups + b,
                    lane_weights: group_lane_weights[b],
                    coeff: residual_weights[b],
                },
            );
        }
        let polynomial = BatchedPolynomial { tables, round_terms, output_terms, bit_weights };
        proof {
            assert forall|b: int| 0 <= b < n_bounds implies (
            #[trigger] polynomial.tables@[group_words@.len() + b]) is Words
                && polynomial.tables@[group_words@.len() + b]->Words_0@ == boundary_words@[b]@ by {
                assert(polynomial.tables@[n_groups + b].wf());
            }
        }
        Ok(
            BatchedParallelProver {
                inner: SumProver::new(polynomial, eval_point, batched_eval),
                n_groups,
            },
        )
    }

    /// The number of variables that are not bound yet.
    pub fn n_vars(&self) -> (r: usize)
        ensures
            r == self.inner.point@.len(),
    {
        self.inner.n_vars()
    }

    /// The number of claims.
    pub fn n_claims(&self) -> (r: usize)
        ensures
            r == 1,
    {
        1
    }

    /// The coordinates of the claim that are not bound yet.
    pub fn eval_point(&self) -> (r: &[F])
        ensures
            r@ == self.inner.point@,
    {
        self.inner.point.as_slice()
    }

    /// Whether the boundaries between groups are checked along with the rounds.
    pub fn has_boundaries(&self) -> (r: bool)
        ensures
            r == (self.inner.polynomial.output_terms@.len() > 0),
    {
        self.inner.polynomial.output_terms.len() > 0
    }

    /// Computes the next round polynomial: a list of one, for the one claim.
    pub fn execute(&mut self) -> (r: Result<Vec<RoundCoeffs<F>>, SumcheckError>)
        where F: Send + Sync
        requires
            old(self).inner.wf(),
            old(self).inner.point@.len() > 0,
            pow2(old(self).inner.point@.len()) <= usize::MAX,
        ensures
            final(self).n_groups == old(self).n_groups,
            final(self).inner.polynomial == old(self).inner.polynomial,
            final(self).inner.point == old(self).inner.point,
            match old(self).inner.last {
                RoundCoeffsOrEval::Coeffs(_) => r == Err::<Vec<RoundCoeffs<F>>, SumcheckError>(
                    SumcheckError::ExpectedFold,
                ) && final(self).inner == old(self).inner,
                RoundCoeffsOrEval::Eval(claim) => {
                    let coeffs = interpolated(
                        claim,
                        old(self).inner.point@.last(),
                        round_at_one(old(self).inner.polynomial, old(self).inner.point@),
                        round_at_inf(old(self).inner.polynomial, old(self).inner.point@),
                    );
                    &&& r is Ok
                    &&& r->Ok_0@ == seq![coeffs]
                    &&& final(self).inner.last == RoundCoeffsOrEval::Coeffs(coeffs)
                },
            },
    {
        match self.inner.execute() {
            Ok(coeffs) => {
                let list: Vec<RoundCoeffs<F>> = vec![coeffs];
                assert(list@ =~= seq![coeffs]);
                Ok(list)
            },
            Err(e) => Err(e),
        }
    }

    /// Binds the highest variable to the challenge of the last round polynomial.
    pub fn fold(&mut self, challenge: F) -> (r: Result<(), SumcheckError>)
        requires
            old(self).inner.wf(),
            old(self).inner.point@.len() > 0,
        ensures
            final(self).inner.wf(),
            final(self).n_groups == old(self).n_groups,
            match old(self).inner.last {
                RoundCoeffsOrEval::Eval(_) => r == Err::<(), SumcheckError>(
                    SumcheckError::ExpectedExecute,
                ) && final(self).inner == old(self).inner,
                RoundCoeffsOrEval::Coeffs(coeffs) => {
                    &&& r == Ok::<(), SumcheckError>(())
                    &&& final(self).inner.last == RoundCoeffsOrEval::Eval(
                        coeffs_at(coeffs, challenge),
                    )
                    &&& final(self).inner.point@ == old(self).inner.point@.drop_last()
                    &&& polynomial_folds(
                        old(self).inner.polynomial,
                        final(self).inner.polynomial,
                        challenge,
                    )
                },
            },
    {
        self.inner.fold(challenge)
    }

    /// The folded lane evaluations of all groups, once every variable is bound: 25 per group.
    pub fn finish(&self) -> (r: Result<Vec<F>, SumcheckError>)
        requires
            self.inner.wf(),
            self.n_groups <= self.inner.polynomial.tables@.len(),
            25 * self.n_groups <= usize::MAX,
        ensures
            r is Ok == (self.inner.point@.len() == 0),
            r matches Err(e) ==> e == match self.inner.last {
                RoundCoeffsOrEval::Coeffs(_) => SumcheckError::ExpectedFold,
                RoundCoeffsOrEval::Eval(_) => SumcheckError::ExpectedExecute,
            },
            r matches Ok(evals) ==> evals@.len() == 25 * self.n_groups && forall|g: int, l: int|
                0 <= g < self.n_groups && 0 <= l < 25 ==> #[trigger] evals@[25 * g + l]
                    == folded_lanes(
                    self.inner.polynomial.tables@[g].block(0),
                    self.inner.polynomial.bit_weights@,
                )[l],
    {
        let r = self.inner.finish(self.n_groups);
        proof {
            if let Ok(evals) = &r {
                assert forall|g: int, l: int|
                    0 <= g < self.n_groups && 0 <= l < 25 implies #[trigger] evals@[25 * g + l]
                    == folded_lanes(
                    self.inner.polynomial.tables@[g].block(0),
                    self.inner.polynomial.bit_weights@,
                )[l] by {
                    let i = 25 * g + l;
                    assert(i / 25 == g && i % 25 == l);
                }
            }
        }
        r
    }
}

} // verus!
