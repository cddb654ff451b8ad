//! The protocol of KeccakCheck in parallel groups as a state machine.
//!
//! Prover and verifier run the same machine. [`ParallelProtocol::next_action`] says what the
//! channel has to do next; its outcome is handed back by the method for that action.
use super::blocks::{output_value, round_value};
use super::claims::{
    bit_indexed_claim_from_evals, bit_indexed_lane_claim_from_words, copy_point,
    evaluate_lane_low_vectors_from_words, fold_low_vectors, folded_lanes, is_bit_claim, words_at,
    BitIndexedEndpointClaims, BitIndexedMixedClaim, CompactTrace,
};
use super::grouped_round::{reversed, ClaimError, Error};
use super::kernels::{fused_round_eval, weighted_output_block_eval_at_hi};
use super::parallel_groups::{
    effective, group_boundary_output, group_round, parallel_fault, round_at,
    validate_parallel_args, BatchedParallelProver,
};
use super::sumcheck::SumcheckError;
use crate::field::BinaryField;
use crate::keccak_prove::trace::State;
use crate::math::sums::{keep_if, lemma_zero, sum};
use crate::verify::repeated_monster::is_pow2;
use vstd::arithmetic::power2::pow2;
use super::rotation::{bit_lagrange_weights, bit_weights_of};
use vstd::prelude::*;

verus! {

/// What the channel has to do next.
#[derive(Debug, Clone, Copy, PartialEq, Eq, Structural)]
pub enum Action {
    /// Sample the bit challenge, then the coordinates of the instance point, then 25 lane weights
    /// per group.
    SampleSetup {
        /// The number of coordinates.
        coordinates: usize,
        /// The number of groups.
        groups: usize,
    },
    /// Sample the batch weights of a layer, then its residual weights.
    SampleLayer {
        /// The number of batch weights.
        batch: usize,
        /// The number of residual weights.
        residual: usize,
    },
    /// Run the quadratic evaluation check of the layer's claim.
    RunMleCheck,
    /// Require that the value left by the check is zero.
    RequireZero,
    /// Sample 25 lane weights for each of the groups.
    SampleNext {
        /// The number of groups.
        groups: usize,
    },
    /// Nothing: both endpoint claims stand.
    Finished,
}

/// Where the protocol stands.
#[derive(Debug, Clone, Copy, PartialEq, Eq)]
pub enum Phase<F> {
    /// The setup challenges are due.
    Setup,
    /// The weights of the layer are due.
    LayerWeights,
    /// The outcome of the evaluation check is due.
    MleCheck,
    /// The value that must be zero.
    ZeroCheck(F),
    /// The lane weights of the reduced claims are due.
    NextWeights,
    /// Both endpoint claims stand.
    Finished,
}

/// The state of the protocol.
pub struct ParallelProtocol<'a, F> {
    /// The trace.
    pub trace: &'a CompactTrace,
    /// The rounds of a group.
    pub group_size: usize,
    /// The number of groups.
    pub n_groups: usize,
    /// Where the protocol stands.
    pub phase: Phase<F>,
    /// The layer, counted from the output.
    pub layer: usize,
    /// The bit challenge.
    pub bit_challenge: F,
    /// The Lagrange evaluations at the bit challenge.
    pub bit_weights: [F; 64],
    /// The claim of each group.
    pub claims: Vec<BitIndexedMixedClaim<F>>,
    /// The batch weights of the layer.
    pub batch_weights: Vec<F>,
    /// The residual weights of the layer.
    pub residual_weights: Vec<F>,
    /// The point that the layer's claim was reduced to.
    pub reduced_point: Vec<F>,
    /// The folded lane evaluations of each group at that point.
    pub input_evals: Vec<[F; 25]>,
    /// The claim on the output of the permutation.
    pub output_claim: Option<BitIndexedMixedClaim<F>>,
    /// The claim on the input of the permutation.
    pub input_claim: Option<BitIndexedMixedClaim<F>>,
}

/// Whether two claims hold the same values.
pub open spec fn same_claim<F>(a: BitIndexedMixedClaim<F>, b: BitIndexedMixedClaim<F>) -> bool {
    &&& a.bit_challenge == b.bit_challenge
    &&& a.high_point@ == b.high_point@
    &&& a.lane_weights@ == b.lane_weights@
    &&& a.lane_evals@ == b.lane_evals@
    &&& a.mixed_eval == b.mixed_eval
}

fn copy_claim<F: BinaryField>(c: &BitIndexedMixedClaim<F>) -> (r: BitIndexedMixedClaim<F>)
    ensures
        same_claim(r, *c),
{
    BitIndexedMixedClaim {
        bit_challenge: c.bit_challenge,
        high_point: copy_point(c.high_point.as_slice()),
        lane_weights: c.lane_weights,
        lane_evals: c.lane_evals,
        mixed_eval: c.mixed_eval,
    }
}

/// The batched claim of a layer.
pub open spec fn batched_claim<F: BinaryField>(
    batch: Seq<F>,
    claims: Seq<BitIndexedMixedClaim<F>>,
) -> F {
    sum(|g: int| batch[g].times(claims[g].mixed_eval), claims.len())
}

/// What group `g` adds to the batched polynomial of a layer at a point.
pub open spec fn group_share<F: BinaryField>(
    trace: CompactTrace,
    group_size: int,
    layer: int,
    claims: Seq<BitIndexedMixedClaim<F>>,
    batch: Seq<F>,
    residual: Seq<F>,
    bw: Seq<F>,
    point: Seq<F>,
    g: int,
) -> F {
    let r = round_at(g, group_size, layer);
    let lw = claims[g].lane_weights@;
    effective(batch, residual, g).times(
        round_value(words_at(trace.round_inputs@[r]@, point), lw, r, bw),
    ).plus(
        keep_if(
            g < residual.len(),
            residual[g].times(
                output_value(words_at(trace.states((g + 1) * group_size), point), lw, bw),
            ),
        ),
    )
}

/// The batched polynomial of a layer at a point.
pub open spec fn layer_value<F: BinaryField>(
    trace: CompactTrace,
    group_size: int,
    layer: int,
    claims: Seq<BitIndexedMixedClaim<F>>,
    batch: Seq<F>,
    residual: Seq<F>,
    bw: Seq<F>,
    point: Seq<F>,
) -> F {
    sum(
        |g: int|
            group_share(trace, group_size, layer, claims, batch, residual, bw, point, g),
        claims.len(),
    )
}

impl<'a, F: BinaryField> ParallelProtocol<'a, F> {
    /// The trace has its shape, the groups cover the rounds, and what is due fits the phase.
    pub open spec fn wf(self) -> bool {
        &&& self.trace.shaped()
        &&& 0 < self.group_size <= 24
        &&& 0 < self.n_groups <= 24
        &&& self.n_groups * self.group_size == 24
        &&& is_pow2(self.trace.final_output@.len())
        &&& self.layer < self.group_size
        &&& !(self.phase is Setup) ==> {
            &&& self.claims@.len() == self.n_groups
            &&& self.output_claim is Some
            &&& forall|g: int|
                0 <= g < self.n_groups ==> pow2((#[trigger] self.claims@[g]).high_point@.len())
                    == self.trace.final_output@.len()
        }
        &&& self.phase is MleCheck ==> {
            &&& self.batch_weights@.len() == self.n_groups
            &&& self.residual_weights@.len() == self.n_residuals()
        }
        &&& (self.phase is ZeroCheck || self.phase is NextWeights) ==> {
            &&& self.input_evals@.len() == self.n_groups
            &&& pow2(self.reduced_point@.len()) == self.trace.final_output@.len()
        }
        &&& self.phase is Finished ==> self.input_claim is Some
    }

    /// The number of residual weights of the layer: one per boundary at the first layer.
    pub open spec fn n_residuals(self) -> int {
        if self.layer == 0 {
            self.n_groups - 1
        } else {
            0
        }
    }

    /// What stays the same in every step.
    pub open spec fn same_setting(self, pre: Self) -> bool {
        &&& self.trace == pre.trace
        &&& self.group_size == pre.group_size
        &&& self.n_groups == pre.n_groups
    }

    /// What stays the same from the setup on.
    pub open spec fn keeps(self, pre: Self) -> bool {
        &&& self.same_setting(pre)
        &&& self.bit_challenge == pre.bit_challenge
        &&& self.bit_weights == pre.bit_weights
        &&& self.output_claim == pre.output_claim
    }

    /// The state after the setup: the claim of each group is on the states after its last round,
    /// and the claim on the output is that of the last group.
    pub open spec fn set_up_by(
        self,
        pre: Self,
        bit_challenge: F,
        high_point: Seq<F>,
        weights: Seq<[F; 25]>,
    ) -> bool {
        &&& self.wf()
        &&& self.same_setting(pre)
        &&& self.phase is LayerWeights
        &&& self.layer == pre.layer
        &&& self.bit_challenge == bit_challenge
        &&& self.bit_weights@ == bit_weights_of(bit_challenge)
        &&& forall|g: int|
            0 <= g < self.n_groups ==> is_bit_claim(
                #[trigger] self.claims@[g],
                bit_challenge,
                high_point,
                weights[g]@,
                folded_lanes(
                    words_at(self.trace.states((g + 1) * self.group_size), high_point),
                    bit_weights_of(bit_challenge),
                ),
            )
        &&& same_claim(self.output_claim->Some_0, self.claims@[self.n_groups - 1])
    }

    /// The state after the weights of a layer, which it holds.
    pub open spec fn took_layer_weights(self, pre: Self) -> bool {
        &&& self.wf()
        &&& self.keeps(pre)
        &&& self.phase is MleCheck
        &&& self.layer == pre.layer
        &&& self.claims == pre.claims
    }

    /// The state after the prover's evaluation check, with the evaluations that it holds.
    pub open spec fn took_evals(self, pre: Self, challenges: Seq<F>) -> bool {
        &&& self.wf()
        &&& self.keeps(pre)
        &&& self.phase is NextWeights
        &&& self.layer == pre.layer
        &&& self.claims == pre.claims
        &&& self.reduced_point@ == challenges.reverse()
    }

    /// Whether the evaluations are those of the inputs of the layer's rounds at the reduced point.
    pub open spec fn evals_hold(self) -> bool {
        forall|g: int|
            0 <= g < self.n_groups ==> (#[trigger] self.input_evals@[g])@ == folded_lanes(
                words_at(
                    self.trace.round_inputs@[round_at(
                        g,
                        self.group_size as int,
                        self.layer as int,
                    )]@,
                    self.reduced_point@,
                ),
                self.bit_weights@,
            )
    }

    /// The state after the verifier's evaluation check: the value that must be zero is the
    /// difference of the evaluation that is left from the layer's polynomial.
    pub open spec fn took_check(self, pre: Self, challenges: Seq<F>, eval: F) -> bool {
        &&& self.wf()
        &&& self.keeps(pre)
        &&& self.phase == Phase::ZeroCheck(
            layer_value(
                *pre.trace,
                pre.group_size as int,
                pre.layer as int,
                pre.claims@,
                pre.batch_weights@,
                pre.residual_weights@,
                pre.bit_weights@,
                challenges.reverse(),
            ).plus(eval),
        )
        &&& self.layer == pre.layer
        &&& self.claims == pre.claims
        &&& self.reduced_point@ == challenges.reverse()
        &&& self.evals_hold()
    }

    /// The state after the value was accepted as zero.
    pub open spec fn took_zero(self, pre: Self) -> bool {
        &&& self.wf()
        &&& self.keeps(pre)
        &&& self.phase is NextWeights
        &&& self.layer == pre.layer
        &&& self.claims == pre.claims
        &&& self.reduced_point == pre.reduced_point
        &&& self.input_evals == pre.input_evals
    }

    /// The state after the lane weights of the reduced claims: the next layer, or the end with the
    /// claim on the input.
    pub open spec fn took_next_weights(self, pre: Self, weights: Seq<[F; 25]>) -> bool {
        &&& self.wf()
        &&& self.keeps(pre)
        &&& pre.layer == pre.group_size - 1 ==> {
            &&& self.phase is Finished
            &&& is_bit_claim(
                self.input_claim->Some_0,
                pre.bit_challenge,
                pre.reduced_point@,
                weights[0]@,
                pre.input_evals@[0]@,
            )
        }
        &&& pre.layer < pre.group_size - 1 ==> {
            &&& self.phase is LayerWeights
            &&& self.layer == pre.layer + 1
            &&& forall|g: int|
                0 <= g < self.n_groups ==> is_bit_claim(
                    #[trigger] self.claims@[g],
                    pre.bit_challenge,
                    pre.reduced_point@,
                    weights[g]@,
                    pre.input_evals@[g]@,
                )
        }
    }

    /// Starts the protocol on a trace.
    pub fn start(trace: &'a CompactTrace, group_size: usize) -> (r: Result<Self, Error>)
        ensures
            match parallel_fault(*trace, group_size as int) {
                Some(e) => r is Err && r->Err_0 == Error::InvalidClaim(e),
                None => {
                    &&& r is Ok
                    &&& r->Ok_0.wf()
                    &&& r->Ok_0.trace == trace
                    &&& r->Ok_0.group_size == group_size
                    &&& r->Ok_0.n_groups == 24int / group_size as int
                    &&& r->Ok_0.phase is Setup
                    &&& r->Ok_0.layer == 0
                },
            },
    {
        match validate_parallel_args(trace, group_size) {
            Err(e) => {
                return Err(e);
            },
            Ok(_) => {},
        }
        let n_groups: usize = 24 / group_size;
        proof {
            let (g, q) = (group_size as int, n_groups as int);
            assert(24int % g == 0);
            vstd::arithmetic::div_mod::lemma_fundamental_div_mod(24, g);
            assert(q * g == g * q) by (nonlinear_arith);
            assert(g <= 24) by (nonlinear_arith)
                requires
                    q * g == 24,
                    g > 0,
                    q >= 0,
            ;
            assert(q > 0 && q <= 24) by (nonlinear_arith)
                requires
                    q * g == 24,
                    g > 0,
                    q >= 0,
            ;
        }
        Ok(
            ParallelProtocol {
                trace,
                group_size,
                n_groups,
                phase: Phase::Setup,
                layer: 0,
                bit_challenge: F::zero(),
                bit_weights: [F::zero(); 64],
                claims: Vec::new(),
                batch_weights: Vec::new(),
                residual_weights: Vec::new(),
                reduced_point: Vec::new(),
                input_evals: Vec::new(),
                output_claim: None,
                input_claim: None,
            },
        )
    }

    /// What the channel has to do next.
    pub fn next_action(&self) -> (r: Action)
        requires
            self.wf(),
        ensures
            match self.phase {
                Phase::Setup => r matches Action::SampleSetup { coordinates, groups } && groups
                    == self.n_groups && pow2(coordinates as nat)
                    == self.trace.final_output@.len(),
                Phase::LayerWeights => r == (Action::SampleLayer {
                    batch: self.n_groups,
                    residual: self.n_residuals() as usize,
                }),
                Phase::MleCheck => r == Action::RunMleCheck,
                Phase::ZeroCheck(_) => r == Action::RequireZero,
                Phase::NextWeights => r matches Action::SampleNext { groups } && groups == (
                if self.layer == self.group_size - 1 {
                    1
                } else {
                    self.n_groups as int
                }),
                Phase::Finished => r == Action::Finished,
            },
    {
        match &self.phase {
            Phase::Setup => Action::SampleSetup {
                coordinates: self.trace.log_n_instances(),
                groups: self.n_groups,
            },
            Phase::LayerWeights => Action::SampleLayer {
                batch: self.n_groups,
                residual: if self.layer == 0 {
                    self.n_groups - 1
                } else {
                    0
                },
            },
            Phase::MleCheck => Action::RunMleCheck,
            Phase::ZeroCheck(_) => Action::RequireZero,
            Phase::NextWeights => Action::SampleNext {
                groups: if self.layer == self.group_size - 1 {
                    1
                } else {
                    self.n_groups
                },
            },
            Phase::Finished => Action::Finished,
        }
    }

    /// Takes the setup challenges: the claim of each group is on the states after its last round.
    pub fn on_setup(
        &mut self,
        bit_challenge: F,
        high_point: &[F],
        weights: &Vec<[F; 25]>,
    )
        requires
            old(self).wf(),
            old(self).phase is Setup,
            pow2(high_point@.len()) == old(self).trace.final_output@.len(),
            weights@.len() == old(self).n_groups,
        ensures
            final(self).set_up_by(*old(self), bit_challenge, high_point@, weights@),
    {
        let mut claims: Vec<BitIndexedMixedClaim<F>> = Vec::new();
        let n_groups: usize = self.n_groups;
        for g in 0..n_groups
            invariant
                self.wf(),
                *self == *old(self),
                n_groups == self.n_groups,
                pow2(high_point@.len()) == self.trace.final_output@.len(),
                weights@.len() == n_groups,
                claims@.len() == g,
                forall|j: int|
                    0 <= j < g ==> is_bit_claim(
                        #[trigger] claims@[j],
                        bit_challenge,
                        high_point@,
                        weights@[j]@,
                        folded_lanes(
                            words_at(self.trace.states((j + 1) * self.group_size), high_point@),
                            bit_weights_of(bit_challenge),
                        ),
                    ),
        {
            let words = group_boundary_output(self.trace, g, self.group_size, n_groups);
            claims.push(
                bit_indexed_lane_claim_from_words(
                    words,
                    bit_challenge,
                    high_point,
                    weights[g],
                ),
            );
        }
        let output_claim = copy_claim(&claims[n_groups - 1]);
        self.claims = claims;
        self.output_claim = Some(output_claim);
        self.bit_challenge = bit_challenge;
        self.bit_weights = bit_lagrange_weights(bit_challenge);
        self.phase = Phase::LayerWeights;
        proof {
            assert forall|g: int| 0 <= g < self.n_groups implies pow2(
                (#[trigger] self.claims@[g]).high_point@.len(),
            ) == self.trace.final_output@.len() by {}
        }
    }

    /// Takes the weights of a layer.
    pub fn on_layer_weights(&mut self, batch_weights: Vec<F>, residual_weights: Vec<F>)
        requires
            old(self).wf(),
            old(self).phase is LayerWeights,
            batch_weights@.len() == old(self).n_groups,
            residual_weights@.len() == old(self).n_residuals(),
        ensures
            final(self).took_layer_weights(*old(self)),
            final(self).batch_weights == batch_weights,
            final(self).residual_weights == residual_weights,
    {
        self.batch_weights = batch_weights;
        self.residual_weights = residual_weights;
        self.phase = Phase::MleCheck;
    }

    /// The claim of the layer: the point of the first group's claim, and the batched evaluation.
    pub fn layer_claim(&self) -> (r: (Vec<F>, F))
        requires
            self.wf(),
            self.phase is MleCheck,
        ensures
            r.0@ == self.claims@[0].high_point@,
            r.1 == batched_claim(self.batch_weights@, self.claims@),
    {
        let n: usize = self.n_groups;
        let mut acc = F::zero();
        let ghost f = |g: int| self.batch_weights@[g].times(self.claims@[g].mixed_eval);
        for g in 0..n
            invariant
                self.wf(),
                self.phase is MleCheck,
                n == self.n_groups,
                f == (|g: int| self.batch_weights@[g].times(self.claims@[g].mixed_eval)),
                acc == sum(f, g as nat),
        {
            acc = acc.add(self.batch_weights[g].mul(self.claims[g].mixed_eval));
        }
        (copy_point(self.claims[0].high_point.as_slice()), acc)
    }

    /// Takes the outcome of the prover's evaluation check: the challenges, highest variable
    /// first, and 25 folded lane evaluations per group.
    pub fn on_prover_output(&mut self, challenges: &Vec<F>, evals: &Vec<F>) -> (r: Result<(), Error>)
        requires
            old(self).wf(),
            old(self).phase is MleCheck,
            pow2(challenges@.len()) == old(self).trace.final_output@.len(),
        ensures
            final(self).wf(),
            r is Ok == (evals@.len() >= 25 * old(self).n_groups),
            r matches Err(e) ==> e == Error::InvalidClaim(ClaimError::FoldedEvaluationCount)
                && *final(self) == *old(self),
            r is Ok ==> {
                &&& final(self).took_evals(*old(self), challenges@)
                &&& forall|g: int|
                    0 <= g < final(self).n_groups ==> (#[trigger] final(self).input_evals@[g])@
                        == evals@.subrange(25 * g, 25 * g + 25)
            },
    {
        let n: usize = self.n_groups;
        if evals.len() < 25 * n {
            return Err(Error::InvalidClaim(ClaimError::FoldedEvaluationCount));
        }
        let mut input_evals: Vec<[F; 25]> = Vec::new();
        for g in 0..n
            invariant
                n <= 24,
                25 * n <= evals@.len(),
                input_evals@.len() == g,
                forall|j: int|
                    0 <= j < g ==> (#[trigger] input_evals@[j])@ == evals@.subrange(
                        25 * j,
                        25 * j + 25,
                    ),
        {
            let mut lanes: [F; 25] = [F::zero(); 25];
            for l in 0..25
                invariant
                    n <= 24,
                    g < n,
                    25 * n <= evals@.len(),
                    forall|k: int| 0 <= k < l ==> lanes[k] == evals@[25 * g + k],
            {
                lanes[l] = evals[25 * g + l];
            }
            assert(lanes@ =~= evals@.subrange(25 * g as int, 25 * g + 25));
            input_evals.push(lanes);
        }
        self.reduced_point = reversed(challenges);
        self.input_evals = input_evals;
        self.phase = Phase::NextWeights;
        Ok(())
    }

    /// The prover of the layer's claim.
    pub fn layer_prover(&self) -> (r: Result<BatchedParallelProver<F>, SumcheckError>)
        requires
            self.wf(),
            self.phase is MleCheck,
        ensures
            r is Ok,
            r matches Ok(p) ==> {
                &&& p.inner.wf()
                &&& p.n_groups == self.n_groups
                &&& p.inner.point@ == self.claims@[0].high_point@
                &&& p.inner.last == super::sumcheck::RoundCoeffsOrEval::Eval(
                    batched_claim(self.batch_weights@, self.claims@),
                )
                &&& p.inner.polynomial.bit_weights == self.bit_weights
                &&& self.is_layer_polynomial(p.inner.polynomial)
            },
    {
        let n: usize = self.n_groups;
        let size: usize = self.group_size;
        let (point, eval) = self.layer_claim();
        let mut group_words: Vec<&[State]> = Vec::new();
        let mut rounds: Vec<usize> = Vec::new();
        let mut lane_weights: Vec<[F; 25]> = Vec::new();
        for g in 0..n
            invariant
                self.wf(),
                self.phase is MleCheck,
                n == self.n_groups,
                size == self.group_size,
                group_words@.len() == g,
                rounds@.len() == g,
                lane_weights@.len() == g,
                forall|j: int|
                    0 <= j < g ==> #[trigger] rounds@[j] < 24 && rounds@[j] == round_at(
                        j,
                        size as int,
                        self.layer as int,
                    ),
                forall|j: int|
                    0 <= j < g ==> (#[trigger] group_words@[j])@ == self.trace.round_inputs@[round_at(
                        j,
                        size as int,
                        self.layer as int,
                    )]@ && group_words@[j]@.len() == self.trace.final_output@.len(),
                forall|j: int|
                    0 <= j < g ==> #[trigger] lane_weights@[j] == self.claims@[j].lane_weights,
        {
            let r: usize = group_round(g, size, self.layer, n);
            rounds.push(r);
            let words = &self.trace.round_inputs[r];
            assert(self.trace.round_inputs@[r as int]@.len() == self.trace.final_output@.len());
            group_words.push(words.as_slice());
            lane_weights.push(self.claims[g].lane_weights);
        }
        let n_res: usize = self.residual_weights.len();
        let mut boundary_words: Vec<&[State]> = Vec::new();
        for g in 0..n_res
            invariant
                self.wf(),
                self.phase is MleCheck,
                n == self.n_groups,
                size == self.group_size,
                n_res == self.residual_weights@.len(),
                n_res <= n,
                boundary_words@.len() == g,
                forall|j: int|
                    0 <= j < g ==> (#[trigger] boundary_words@[j])@ == self.trace.states(
                        (j + 1) * size,
                    ) && boundary_words@[j]@.len() == self.trace.final_output@.len(),
        {
            boundary_words.push(group_boundary_output(self.trace, g, size, n));
        }
        let count: usize = self.trace.final_output.len();
        BatchedParallelProver::new_with_boundaries(
            &group_words,
            self.bit_weights,
            &lane_weights,
            &self.batch_weights,
            &rounds,
            point,
            eval,
            &boundary_words,
            &self.residual_weights,
        )
    }

    /// Whether a polynomial is that of the layer: the round polynomials of the groups' inputs,
    /// and the boundary outputs.
    pub open spec fn is_layer_polynomial(self, poly: super::batch::BatchedPolynomial<F>) -> bool {
        let n = self.n_groups as int;
        let m = self.residual_weights@.len() as int;
        &&& poly.tables@.len() == n + m
        &&& poly.round_terms@.len() == n
        &&& poly.output_terms@.len() == m
        &&& forall|g: int|
            0 <= g < n ==> (#[trigger] poly.tables@[g]) is Words && poly.tables@[g]->Words_0@
                == self.trace.round_inputs@[round_at(
                g,
                self.group_size as int,
                self.layer as int,
            )]@
        &&& forall|b: int|
            0 <= b < m ==> (#[trigger] poly.tables@[n + b]) is Words && poly.tables@[n
                + b]->Words_0@ == self.trace.states((b + 1) * self.group_size)
        &&& forall|g: int|
            0 <= g < n ==> (#[trigger] poly.round_terms@[g]).table == g
                && poly.round_terms@[g].round == round_at(
                g,
                self.group_size as int,
                self.layer as int,
            ) && poly.round_terms@[g].lane_weights == self.claims@[g].lane_weights
                && poly.round_terms@[g].coeff == effective(
                self.batch_weights@,
                self.residual_weights@,
                g,
            )
        &&& forall|b: int|
            0 <= b < m ==> (#[trigger] poly.output_terms@[b]).table == n + b
                && poly.output_terms@[b].lane_weights == self.claims@[b].lane_weights
                && poly.output_terms@[b].coeff == self.residual_weights@[b]
    }

    /// Takes the outcome of the verifier's evaluation check: the challenges, highest variable
    /// first, and the evaluation that is left. The value that must be zero is its difference
    /// from the layer's polynomial, recomputed from the trace.
    pub fn on_verifier_output(&mut self, challenges: &Vec<F>, eval: F)
        requires
            old(self).wf(),
            old(self).phase is MleCheck,
            pow2(challenges@.len()) == old(self).trace.final_output@.len(),
        ensures
            final(self).took_check(*old(self), challenges@, eval),
    {
        let reduced = reversed(challenges);
        let n: usize = self.n_groups;
        let size: usize = self.group_size;
        let n_res: usize = self.residual_weights.len();
        let ghost rp = challenges@.reverse();
        let ghost f = |g: int|
            group_share(
                *self.trace,
                size as int,
                self.layer as int,
                self.claims@,
                self.batch_weights@,
                self.residual_weights@,
                self.bit_weights@,
                rp,
                g,
            );
        let mut expected = F::zero();
        let mut input_evals: Vec<[F; 25]> = Vec::new();
        for g in 0..n
            invariant
                self.wf(),
                *self == *old(self),
                self.phase is MleCheck,
                n == self.n_groups,
                size == self.group_size,
                n_res == self.residual_weights@.len(),
                n_res <= n,
                reduced@ == rp,
                pow2(rp.len()) == self.trace.final_output@.len(),
                f == (|g: int|
                    group_share(
                        *self.trace,
                        size as int,
                        self.layer as int,
                        self.claims@,
                        self.batch_weights@,
                        self.residual_weights@,
                        self.bit_weights@,
                        rp,
                        g,
                    )),
                expected == sum(f, g as nat),
                input_evals@.len() == g,
                forall|j: int|
                    0 <= j < g ==> (#[trigger] input_evals@[j])@ == folded_lanes(
                        words_at(
                            self.trace.round_inputs@[round_at(
                                j,
                                size as int,
                                self.layer as int,
                            )]@,
                            rp,
                        ),
                        self.bit_weights@,
                    ),
        {
            let round: usize = group_round(g, size, self.layer, n);
            let words = &self.trace.round_inputs[round];
            assert(self.trace.round_inputs@[round as int]@.len() == self.trace.final_output@.len());
            let low = evaluate_lane_low_vectors_from_words(words.as_slice(), reduced.as_slice());
            let evals = fold_low_vectors(&low, &self.bit_weights);
            let fused = fused_round_eval(
                &low,
                &self.claims[g].lane_weights,
                round,
                &self.bit_weights,
            );
            let share = if g < n_res {
                let boundary = group_boundary_output(self.trace, g, size, n);
                let boundary_low = evaluate_lane_low_vectors_from_words(
                    boundary,
                    reduced.as_slice(),
                );
                let boundary_mixed = weighted_output_block_eval_at_hi(
                    &boundary_low,
                    &self.claims[g].lane_weights,
                    &self.bit_weights,
                );
                let eff = self.batch_weights[g].add(self.residual_weights[g]);
                eff.mul(fused).add(self.residual_weights[g].mul(boundary_mixed))
            } else {
                let s = self.batch_weights[g].mul(fused);
                proof {
                    lemma_zero(s);
                }
                s
            };
            proof {
                assert(share == f(g as int));
                assert(sum(f, (g + 1) as nat) == sum(f, g as nat).plus(f(g as int)));
            }
            expected = expected.add(share);
            input_evals.push(evals);
        }
        self.reduced_point = reduced;
        self.input_evals = input_evals;
        self.phase = Phase::ZeroCheck(expected.add(eval));
    }

    /// Takes that the channel accepted the value as zero.
    pub fn on_zero_accepted(&mut self)
        requires
            old(self).wf(),
            old(self).phase is ZeroCheck,
        ensures
            final(self).took_zero(*old(self)),
    {
        self.phase = Phase::NextWeights;
    }

    /// Takes the lane weights of the reduced claims. At the last layer the first group's claim is
    /// the claim on the input; before it, every group goes on to the next layer.
    pub fn on_next_weights(&mut self, weights: &Vec<[F; 25]>)
        requires
            old(self).wf(),
            old(self).phase is NextWeights,
            weights@.len() == (if old(self).layer == old(self).group_size - 1 {
                1
            } else {
                old(self).n_groups as int
            }),
        ensures
            final(self).took_next_weights(*old(self), weights@),
    {
        let n: usize = self.n_groups;
        if self.layer == self.group_size - 1 {
            let claim = bit_indexed_claim_from_evals(
                self.bit_challenge,
                copy_point(self.reduced_point.as_slice()),
                weights[0],
                self.input_evals[0],
            );
            self.input_claim = Some(claim);
            self.phase = Phase::Finished;
            return;
        }
        let mut claims: Vec<BitIndexedMixedClaim<F>> = Vec::new();
        for g in 0..n
            invariant
                self.wf(),
                *self == *old(self),
                self.phase is NextWeights,
                n == self.n_groups,
                weights@.len() == n,
                claims@.len() == g,
                forall|j: int|
                    0 <= j < g ==> is_bit_claim(
                        #[trigger] claims@[j],
                        self.bit_challenge,
                        self.reduced_point@,
                        weights@[j]@,
                        self.input_evals@[j]@,
                    ),
        {
            claims.push(
                bit_indexed_claim_from_evals(
                    self.bit_challenge,
                    copy_point(self.reduced_point.as_slice()),
                    weights[g],
                    self.input_evals[g],
                ),
            );
        }
        self.claims = claims;
        self.layer = self.layer + 1;
        self.phase = Phase::LayerWeights;
        proof {
            assert forall|g: int| 0 <= g < self.n_groups implies pow2(
                (#[trigger] self.claims@[g]).high_point@.len(),
            ) == self.trace.final_output@.len() by {
                assert(is_bit_claim(
                    self.claims@[g],
                    old(self).bit_challenge,
                    old(self).reduced_point@,
                    weights@[g]@,
                    old(self).input_evals@[g]@,
                ));
            }
        }
    }

    /// The endpoint claims, once the protocol is finished.
    pub fn endpoint_claims(&self) -> (r: Option<BitIndexedEndpointClaims<F>>)
        requires
            self.wf(),
        ensures
            r is Some == (self.phase is Finished),
            r matches Some(c) ==> same_claim(c.output_claim, self.output_claim->Some_0)
                && same_claim(c.input_claim, self.input_claim->Some_0),
    {
        match &self.phase {
            Phase::Finished => {},
            _ => {
                return None;
            },
        }
        match (&self.output_claim, &self.input_claim) {
            (Some(o), Some(i)) => Some(
                BitIndexedEndpointClaims {
                    output_claim: copy_claim(o),
                    input_claim: copy_claim(i),
                },
            ),
            _ => None,
        }
    }
}

} // verus!
