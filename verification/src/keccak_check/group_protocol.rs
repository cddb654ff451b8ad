//! Both sides of a group reduction, up to the messages that a channel carries between them.
use super::claims::{folded_lanes, words_at};
use super::grouped_round::{
    group_evals_at, group_value, inputs_at, is_group_polynomial, reduction_fault, reversed,
    validate_grouped_reduction, ClaimError, Error, GroupedRoundOutput, GroupedRoundProver,
    GroupedRoundReduction,
};
use super::rotation::{bit_lagrange_weights, bit_weights_of};
use super::sumcheck::RoundCoeffsOrEval;
use crate::field::BinaryField;
use crate::keccak_prove::trace::State;
use vstd::arithmetic::power2::pow2;
use vstd::prelude::*;

verus! {

/// Checks a reduction and creates its prover: what a group proof does before its first message.
pub fn begin_group_proof<F: BinaryField>(
    round_inputs: &[&[State]],
    group_output_words: &[State],
    reduction: &GroupedRoundReduction<F>,
) -> (r: Result<GroupedRoundProver<F>, Error>)
    requires
        reduction.round_start + reduction.group_size <= usize::MAX,
        pow2(reduction.output_claim.high_point@.len()) <= usize::MAX,
    ensures
        match reduction_fault(round_inputs@, group_output_words@.len(), *reduction) {
            Some(e) => r == Err::<GroupedRoundProver<F>, Error>(e),
            None => r is Ok,
        },
        r matches Ok(p) ==> {
            &&& p.inner.wf()
            &&& p.inner.point@ == reduction.output_claim.high_point@
            &&& p.inner.last == RoundCoeffsOrEval::Eval(reduction.output_claim.mixed_eval)
            &&& p.inner.polynomial.bit_weights@ == bit_weights_of(
                reduction.output_claim.bit_challenge,
            )
            &&& is_group_polynomial(
                p.inner.polynomial,
                round_inputs@,
                p.inner.polynomial.bit_weights,
                reduction.output_claim.lane_weights,
                reduction.transition_weights@,
                reduction.round_start as int,
            )
        },
{
    match validate_grouped_reduction(round_inputs, group_output_words, reduction) {
        Ok(()) => {},
        Err(e) => {
            return Err(e);
        },
    }
    let bit_weights = bit_lagrange_weights(reduction.output_claim.bit_challenge);
    let point = super::claims::copy_point(reduction.output_claim.high_point.as_slice());
    let prover = GroupedRoundProver::new_from_words(
        round_inputs,
        bit_weights,
        reduction.output_claim.lane_weights,
        reduction.transition_weights.as_slice(),
        reduction.round_start,
        reduction.group_size,
        point,
        reduction.output_claim.mixed_eval,
    );
    match prover {
        Ok(p) => Ok(p),
        Err(e) => {
            proof {
                let j = choose|j: int|
                    0 <= j < round_inputs@.len() && (#[trigger] round_inputs@[j])@.len() != pow2(
                        point@.len(),
                    );
                assert(round_inputs@[j]@.len() != pow2(
                    reduction.output_claim.high_point@.len(),
                ));
            }
            Err(Error::SumcheckProver(e))
        },
    }
}

/// Turns the outcome of the rounds into the claim on the group's input: the evaluations, and the
/// challenges, which come highest variable first, in the order of the variables.
pub fn end_group_proof<F: BinaryField>(evals: &Vec<F>, challenges: &Vec<F>) -> (r: Result<
    GroupedRoundOutput<F>,
    Error,
>)
    ensures
        r is Ok == (evals@.len() == 25),
        r matches Err(e) ==> e == Error::InvalidClaim(ClaimError::FoldedEvaluationCount),
        r matches Ok(out) ==> out.reduced_high_point@ == challenges@.reverse()
            && out.input_evals@ == evals@,
{
    if evals.len() != 25 {
        return Err(Error::InvalidClaim(ClaimError::FoldedEvaluationCount));
    }
    let mut input_evals: [F; 25] = [F::zero(); 25];
    for l in 0..25
        invariant
            evals@.len() == 25,
            forall|k: int| 0 <= k < l ==> #[trigger] input_evals[k] == evals@[k],
    {
        input_evals[l] = evals[l];
    }
    assert(input_evals@ =~= evals@);
    Ok(GroupedRoundOutput { reduced_high_point: reversed(challenges), input_evals })
}

/// Turns the outcome of the evaluation check into the claim on the group's input, with the value
/// that must be zero: the group's polynomial at the reduced point, recomputed from the round
/// inputs, less the evaluation that is left.
pub fn end_group_verification<F: BinaryField>(
    round_inputs: &[&[State]],
    reduction: &GroupedRoundReduction<F>,
    challenges: &Vec<F>,
    eval: F,
) -> (r: (F, GroupedRoundOutput<F>))
    requires
        reduction.group_size > 0,
        round_inputs@.len() == reduction.group_size,
        reduction.round_start + reduction.group_size <= 24,
        reduction.transition_weights@.len() == reduction.group_size - 1,
        forall|j: int|
            0 <= j < round_inputs@.len() ==> (#[trigger] round_inputs@[j])@.len() == pow2(
                challenges@.len(),
            ),
    ensures
        r.0 == group_value(
            inputs_at(round_inputs@, challenges@.reverse()),
            reduction.output_claim.lane_weights@,
            reduction.transition_weights@,
            reduction.round_start as int,
            reduction.group_size as int,
            bit_weights_of(reduction.output_claim.bit_challenge),
        ).plus(eval),
        r.1.reduced_high_point@ == challenges@.reverse(),
        r.1.input_evals@ == folded_lanes(
            words_at(round_inputs@[0]@, challenges@.reverse()),
            bit_weights_of(reduction.output_claim.bit_challenge),
        ),
{
    let reduced_high_point = reversed(challenges);
    let bit_weights = bit_lagrange_weights(reduction.output_claim.bit_challenge);
    let (batched_eval, input_evals) = group_evals_at(
        round_inputs,
        reduction,
        &bit_weights,
        reduced_high_point.as_slice(),
    );
    (batched_eval.add(eval), GroupedRoundOutput { reduced_high_point, input_evals })
}

} // verus!
