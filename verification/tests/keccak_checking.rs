//! Reductions of Keccak output claims to input claims, with both sides driven over a transcript.
use binius64::field::{BinaryField, BinaryField128bGhash, B128};
use binius64::keccak_check::claims::{
    bit_indexed_lane_claim, bit_indexed_lane_claim_from_words,
    bit_indexed_lane_claim_from_words_with_small_field_suffix, compact_trace_from_inputs,
    deterministic_small_field_suffix, extend_high_point_with_small_field_suffix,
    fold_lane_tables_at_bit_challenge, mixed_claim_from_evals, mixed_lane_claim,
    BitIndexedEndpointClaims, CompactTrace, BIT_INDEX_SIZE, LOG_BIT_INDEX_VARS,
};
use binius64::keccak_check::group_protocol::{
    begin_group_proof, end_group_proof, end_group_verification,
};
use binius64::keccak_check::grouped_round::{
    validate_grouped_reduction, ClaimError, Error, GroupedRoundOutput, GroupedRoundReduction,
};
use binius64::keccak_check::parallel_groups::{validate_parallel_args, BatchedParallelProver};
use binius64::keccak_check::protocol::{Action, ParallelProtocol, Phase};
use binius64::keccak_check::rotation::bit_lagrange_weights;
use binius64::keccak_check::round_check::{ClaimMismatch, RoundCheck};
use binius64::keccak_check::sumcheck::{RoundCoeffs, SumcheckError};
use binius64::keccak_prove::trace::{permutation, round, State};
use binius64::math::lagrange::lagrange_evals_scalars;
use binius64::math::multilinear::evaluate_scalars;
use binius64::math::subspace::BinarySubspace;
use rand::rngs::StdRng;
use rand::{Rng, SeedableRng};

type F = BinaryField128bGhash;

fn random_scalar(rng: &mut StdRng) -> F {
    BinaryField128bGhash(rng.random())
}

fn random_scalars(rng: &mut StdRng, n: usize) -> Vec<F> {
    (0..n).map(|_| random_scalar(rng)).collect()
}

fn random_weights(rng: &mut StdRng) -> [F; 25] {
    core::array::from_fn(|_| random_scalar(rng))
}

fn random_states(rng: &mut StdRng, n: usize) -> Vec<State> {
    (0..n).map(|_| core::array::from_fn(|_| rng.random())).collect()
}

/// The challenges of a proof and the round messages that pass between its sides.
struct Transcript {
    rng: StdRng,
    messages: Vec<RoundCoeffs<F>>,
    read: usize,
}

impl Transcript {
    fn record(seed: u64) -> Self {
        Transcript { rng: StdRng::seed_from_u64(seed), messages: Vec::new(), read: 0 }
    }

    fn replay(seed: u64, messages: Vec<RoundCoeffs<F>>) -> Self {
        Transcript { rng: StdRng::seed_from_u64(seed), messages, read: 0 }
    }

    fn sample(&mut self) -> F {
        random_scalar(&mut self.rng)
    }

    fn sample_many(&mut self, n: usize) -> Vec<F> {
        (0..n).map(|_| self.sample()).collect()
    }

    fn sample_weights(&mut self, groups: usize) -> Vec<[F; 25]> {
        (0..groups).map(|_| core::array::from_fn(|_| self.sample())).collect()
    }

    fn send(&mut self, message: RoundCoeffs<F>) {
        self.messages.push(message);
    }

    fn receive(&mut self) -> RoundCoeffs<F> {
        self.read += 1;
        self.messages[self.read - 1]
    }

    /// Requires that every message has been read.
    fn finalize(&self) {
        assert_eq!(self.read, self.messages.len());
    }
}

/// The verifier's side of the evaluation check: the challenges and the evaluation that is left.
fn verify_mlecheck(point: &[F], claim: F, transcript: &mut Transcript) -> Option<(Vec<F>, F)> {
    let mut check = RoundCheck::new(point.to_vec(), claim);
    while check.rounds_left() > 0 {
        let c = transcript.receive();
        let challenge = transcript.sample();
        if check.step(c, challenge).is_err() {
            return None;
        }
        assert_eq!(check.claim, c.c0.add(challenge.mul(c.c1.add(challenge.mul(c.c2)))));
    }
    Some(check.finish())
}

#[test]
fn a_round_is_refused_exactly_where_it_misses_the_claim() {
    let mut rng = StdRng::seed_from_u64(31);
    let point = random_scalars(&mut rng, 2);
    let c = RoundCoeffs {
        c0: random_scalar(&mut rng),
        c1: random_scalar(&mut rng),
        c2: random_scalar(&mut rng),
    };
    let challenge = random_scalar(&mut rng);
    let one = BinaryField128bGhash(1);
    // the highest coordinate is bound first
    let alpha = point[1];
    let claim = one.add(alpha).mul(c.c0).add(alpha.mul(c.c0.add(c.c1).add(c.c2)));

    let mut check = RoundCheck::new(point.clone(), claim);
    assert_eq!(check.rounds_left(), 2);
    assert_eq!(check.step(c, challenge), Ok(()));
    assert_eq!(check.claim, c.evaluate(challenge));
    assert_eq!(check.challenges, vec![challenge]);
    assert_eq!(check.rounds_left(), 1);

    let mut check = RoundCheck::new(point, claim.add(one));
    assert_eq!(check.step(c, challenge), Err(ClaimMismatch));
    assert_eq!(check.claim, claim.add(one));
    assert_eq!(check.rounds_left(), 2);
}

fn prove_group(
    round_inputs: &[&[State]],
    outputs: &[State],
    reduction: &GroupedRoundReduction<F>,
    transcript: &mut Transcript,
) -> Result<GroupedRoundOutput<F>, Error> {
    let mut prover = begin_group_proof(round_inputs, outputs, reduction)?;
    let mut challenges = Vec::new();
    while prover.n_vars() > 0 {
        let messages = prover.execute().expect("a round is due");
        assert_eq!(messages.len(), prover.n_claims());
        transcript.send(messages[0]);
        let challenge = transcript.sample();
        prover.fold(challenge).expect("a challenge is due");
        challenges.push(challenge);
    }
    end_group_proof(&prover.finish().expect("all variables are bound"), &challenges)
}

fn verify_group(
    round_inputs: &[&[State]],
    outputs: &[State],
    reduction: &GroupedRoundReduction<F>,
    transcript: &mut Transcript,
) -> Option<GroupedRoundOutput<F>> {
    validate_grouped_reduction(round_inputs, outputs, reduction).expect("valid shape");
    let claim = &reduction.output_claim;
    let (challenges, eval) = verify_mlecheck(&claim.high_point, claim.mixed_eval, transcript)?;
    let (zero, output) = end_group_verification(round_inputs, reduction, &challenges, eval);
    if zero == B128::zero() {
        Some(output)
    } else {
        None
    }
}

fn group_fixture<'a>(
    rng: &mut StdRng,
    trace: &'a CompactTrace,
    group_size: usize,
) -> (Vec<&'a [State]>, &'a [State], GroupedRoundReduction<F>) {
    let round_inputs: Vec<&[State]> =
        (0..group_size).map(|r| trace.round_inputs[r].as_slice()).collect();
    let group_output = if group_size < 24 {
        trace.round_inputs[group_size].as_slice()
    } else {
        trace.final_output.as_slice()
    };
    let bit_challenge = random_scalar(rng);
    let high_point = random_scalars(rng, trace.log_n_instances());
    let lane_weights = random_weights(rng);
    let output_claim =
        bit_indexed_lane_claim_from_words(group_output, bit_challenge, &high_point, lane_weights);
    let transition_weights = random_scalars(rng, group_size - 1);
    let reduction = GroupedRoundReduction {
        output_claim,
        round_start: 0,
        group_size,
        transition_weights,
    };
    (round_inputs, group_output, reduction)
}

fn run_grouped_prove_verify(group_size: usize) {
    let mut rng = StdRng::seed_from_u64(100 + group_size as u64);
    let inputs = random_states(&mut rng, 2);
    let trace = compact_trace_from_inputs(&inputs);
    let (round_inputs, outputs, reduction) = group_fixture(&mut rng, &trace, group_size);

    let mut prover_transcript = Transcript::record(7);
    let prover_output =
        prove_group(&round_inputs, outputs, &reduction, &mut prover_transcript).unwrap();

    let mut verifier_transcript = Transcript::replay(7, prover_transcript.messages);
    let verifier_output =
        verify_group(&round_inputs, outputs, &reduction, &mut verifier_transcript).unwrap();
    verifier_transcript.finalize();

    assert_eq!(prover_output, verifier_output);
}

#[test]
fn test_grouped_round_k2() {
    run_grouped_prove_verify(2);
}

#[test]
fn test_grouped_round_k3() {
    run_grouped_prove_verify(3);
}

#[test]
fn test_grouped_round_k4() {
    run_grouped_prove_verify(4);
}

#[test]
fn test_grouped_round_k6() {
    run_grouped_prove_verify(6);
}

#[test]
fn test_grouped_round_k8() {
    run_grouped_prove_verify(8);
}

#[test]
fn test_grouped_round_k12() {
    run_grouped_prove_verify(12);
}

#[test]
fn test_grouped_round_k24() {
    run_grouped_prove_verify(24);
}

#[test]
fn test_grouped_round_rejects_corruption() {
    let mut rng = StdRng::seed_from_u64(200);
    let inputs = random_states(&mut rng, 2);
    let trace = compact_trace_from_inputs(&inputs);
    let mut corrupted_trace = trace.clone();
    corrupted_trace.round_inputs[1][0][0] ^= 1;

    let group_size = 4;
    let (round_inputs, outputs, reduction) =
        group_fixture(&mut rng, &corrupted_trace, group_size);

    let mut prover_transcript = Transcript::record(8);
    prove_group(&round_inputs, outputs, &reduction, &mut prover_transcript).unwrap();

    let correct_round_inputs: Vec<&[State]> =
        (0..group_size).map(|r| trace.round_inputs[r].as_slice()).collect();
    let correct_output = trace.round_inputs[group_size].as_slice();

    let mut verifier_transcript = Transcript::replay(8, prover_transcript.messages);
    assert!(verify_group(
        &correct_round_inputs,
        correct_output,
        &reduction,
        &mut verifier_transcript,
    )
    .is_none());
}

fn prove_parallel(
    trace: &CompactTrace,
    group_size: usize,
    transcript: &mut Transcript,
) -> Result<BitIndexedEndpointClaims<F>, Error> {
    let mut protocol = ParallelProtocol::<F>::start(trace, group_size)?;
    loop {
        match protocol.next_action() {
            Action::SampleSetup { coordinates, groups } => {
                let bit_challenge = transcript.sample();
                let high_point = transcript.sample_many(coordinates);
                let weights = transcript.sample_weights(groups);
                protocol.on_setup(bit_challenge, &high_point, &weights);
            }
            Action::SampleLayer { batch, residual } => {
                let batch_weights = transcript.sample_many(batch);
                let residual_weights = transcript.sample_many(residual);
                protocol.on_layer_weights(batch_weights, residual_weights);
            }
            Action::RunMleCheck => {
                let mut prover: BatchedParallelProver<F> =
                    protocol.layer_prover().expect("sizes match");
                let mut challenges = Vec::new();
                while prover.n_vars() > 0 {
                    let messages = prover.execute().expect("a round is due");
                    assert_eq!(messages.len(), prover.n_claims());
                    transcript.send(messages[0]);
                    let challenge = transcript.sample();
                    prover.fold(challenge).expect("a challenge is due");
                    challenges.push(challenge);
                }
                let evals = prover.finish().expect("all variables are bound");
                protocol.on_prover_output(&challenges, &evals)?;
            }
            Action::RequireZero => unreachable!("the prover checks nothing"),
            Action::SampleNext { groups } => {
                let weights = transcript.sample_weights(groups);
                protocol.on_next_weights(&weights);
            }
            Action::Finished => return Ok(protocol.endpoint_claims().expect("finished")),
        }
    }
}

fn verify_parallel(
    trace: &CompactTrace,
    group_size: usize,
    transcript: &mut Transcript,
) -> Option<BitIndexedEndpointClaims<F>> {
    let mut protocol = ParallelProtocol::<F>::start(trace, group_size).expect("valid shape");
    loop {
        match protocol.next_action() {
            Action::SampleSetup { coordinates, groups } => {
                let bit_challenge = transcript.sample();
                let high_point = transcript.sample_many(coordinates);
                let weights = transcript.sample_weights(groups);
                protocol.on_setup(bit_challenge, &high_point, &weights);
            }
            Action::SampleLayer { batch, residual } => {
                let batch_weights = transcript.sample_many(batch);
                let residual_weights = transcript.sample_many(residual);
                protocol.on_layer_weights(batch_weights, residual_weights);
            }
            Action::RunMleCheck => {
                let (point, claim) = protocol.layer_claim();
                let (challenges, eval) = verify_mlecheck(&point, claim, transcript)?;
                protocol.on_verifier_output(&challenges, eval);
            }
            Action::RequireZero => {
                if !matches!(protocol.phase, Phase::ZeroCheck(v) if v == B128::zero()) {
                    return None;
                }
                protocol.on_zero_accepted();
            }
            Action::SampleNext { groups } => {
                let weights = transcript.sample_weights(groups);
                protocol.on_next_weights(&weights);
            }
            Action::Finished => return protocol.endpoint_claims(),
        }
    }
}

fn run_parallel_prove_verify(group_size: usize, n_instances: usize) {
    let seed = 700 + group_size as u64 + n_instances as u64;
    let mut rng = StdRng::seed_from_u64(seed);
    let inputs = random_states(&mut rng, n_instances);
    let trace = compact_trace_from_inputs(&inputs);

    let mut prover_transcript = Transcript::record(seed);
    let prover_output = prove_parallel(&trace, group_size, &mut prover_transcript).unwrap();

    let mut verifier_transcript = Transcript::replay(seed, prover_transcript.messages);
    let verifier_output = verify_parallel(&trace, group_size, &mut verifier_transcript).unwrap();
    verifier_transcript.finalize();

    assert_eq!(prover_output, verifier_output);
}

#[test]
fn test_parallel_k2() {
    run_parallel_prove_verify(2, 2);
}

#[test]
fn test_parallel_k3() {
    run_parallel_prove_verify(3, 2);
}

#[test]
fn test_parallel_k4() {
    run_parallel_prove_verify(4, 2);
}

#[test]
fn test_parallel_k6() {
    run_parallel_prove_verify(6, 2);
}

#[test]
fn test_parallel_k8() {
    run_parallel_prove_verify(8, 2);
}

#[test]
fn test_parallel_k12() {
    run_parallel_prove_verify(12, 2);
}

#[test]
fn test_parallel_k24() {
    run_parallel_prove_verify(24, 2);
}

#[test]
fn test_parallel_k4_larger_batch() {
    run_parallel_prove_verify(4, 4);
}

#[test]
fn test_parallel_k4_batch_8() {
    run_parallel_prove_verify(4, 8);
}

fn reject_corruption(seed: u64, corrupted_round: usize) {
    let mut rng = StdRng::seed_from_u64(seed);
    let inputs = random_states(&mut rng, 2);
    let trace = compact_trace_from_inputs(&inputs);
    let mut corrupted_trace = trace.clone();
    corrupted_trace.round_inputs[corrupted_round][0][0] ^= 1;

    let mut prover_transcript = Transcript::record(seed);
    prove_parallel(&corrupted_trace, 4, &mut prover_transcript).unwrap();

    let mut verifier_transcript = Transcript::replay(seed, prover_transcript.messages);
    assert!(verify_parallel(&trace, 4, &mut verifier_transcript).is_none());
}

#[test]
fn test_parallel_rejects_boundary_corruption() {
    reject_corruption(800, 4);
}

#[test]
fn test_parallel_rejects_intermediate_corruption() {
    reject_corruption(801, 5);
}

/// The endpoint claims of a proof are true of the trace.
#[test]
fn endpoint_claims_hold_of_the_trace() {
    let mut rng = StdRng::seed_from_u64(55);
    let inputs = random_states(&mut rng, 4);
    let trace = compact_trace_from_inputs(&inputs);
    let mut transcript = Transcript::record(55);
    let claims = prove_parallel(&trace, 6, &mut transcript).unwrap();
    let o = &claims.output_claim;
    let direct = bit_indexed_lane_claim_from_words(
        &trace.final_output,
        o.bit_challenge,
        &o.high_point,
        o.lane_weights,
    );
    assert_eq!(*o, direct);
    let i = &claims.input_claim;
    let direct = bit_indexed_lane_claim_from_words(
        &trace.round_inputs[0],
        i.bit_challenge,
        &i.high_point,
        i.lane_weights,
    );
    assert_eq!(*i, direct);
}

/// Lane tables with the bit index in the low six variables.
fn lane_tables(states: &[State]) -> Vec<Vec<F>> {
    (0..25)
        .map(|lane| {
            let mut table = Vec::with_capacity(64 * states.len());
            for state in states {
                for bit in 0..64 {
                    table.push(BinaryField128bGhash(((state[lane] >> bit) & 1) as u128));
                }
            }
            table
        })
        .collect()
}

fn hypercube_point(n: usize, index: usize) -> Vec<F> {
    (0..n).map(|i| BinaryField128bGhash(((index >> i) & 1) as u128)).collect()
}

#[test]
fn test_fold_lane_tables_at_bit_challenge_matches_direct_definition() {
    let mut rng = StdRng::seed_from_u64(12);
    let inputs = random_states(&mut rng, 2);
    let tables = lane_tables(&inputs);
    let bit_challenge = random_scalar(&mut rng);
    let bit_weights = bit_lagrange_weights(bit_challenge);
    let folded = fold_lane_tables_at_bit_challenge(&tables, bit_challenge);
    let high_point = random_scalars(&mut rng, 1);

    for lane in 0..25 {
        let actual = evaluate_scalars(&folded[lane], &high_point);
        let mut expected = B128::zero();
        for bit_index in 0..BIT_INDEX_SIZE {
            let mut point = hypercube_point(LOG_BIT_INDEX_VARS, bit_index);
            point.extend(high_point.iter().copied());
            expected =
                expected.add(bit_weights[bit_index].mul(evaluate_scalars(&tables[lane], &point)));
        }
        assert_eq!(actual, expected, "folded lane evaluation mismatch for lane {lane}");
    }
}

#[test]
fn test_bit_indexed_lane_claim_matches_fold_then_evaluate() {
    let mut rng = StdRng::seed_from_u64(13);
    let inputs = random_states(&mut rng, 2);
    let outputs: Vec<State> = inputs.iter().map(|&s| round(s, 0)).collect();
    let tables = lane_tables(&outputs);
    let bit_challenge = random_scalar(&mut rng);
    let high_point = random_scalars(&mut rng, 1);
    let lane_weights = random_weights(&mut rng);
    let claim = bit_indexed_lane_claim(&tables, bit_challenge, &high_point, lane_weights);
    let folded = fold_lane_tables_at_bit_challenge(&tables, bit_challenge);

    let expected_lane_evals: [F; 25] =
        core::array::from_fn(|lane| evaluate_scalars(&folded[lane], &high_point));
    assert_eq!(claim.lane_evals, expected_lane_evals);
    let mut mixed = B128::zero();
    for lane in 0..25 {
        mixed = mixed.add(lane_weights[lane].mul(expected_lane_evals[lane]));
    }
    assert_eq!(claim.mixed_eval, mixed);

    // Word-level data gives the same claim.
    let from_words =
        bit_indexed_lane_claim_from_words(&outputs, bit_challenge, &high_point, lane_weights);
    assert_eq!(claim, from_words);
}

#[test]
fn test_bit_indexed_lane_claim_selects_boolean_bit_slice_on_domain_point() {
    let mut rng = StdRng::seed_from_u64(14);
    let inputs = random_states(&mut rng, 2);
    let tables = lane_tables(&inputs);
    let bit_index = 17usize;
    let bit_challenge = BinarySubspace::<F>::with_dim(LOG_BIT_INDEX_VARS).get(bit_index);
    let high_point = random_scalars(&mut rng, 1);
    let lane_weights = random_weights(&mut rng);
    let claim = bit_indexed_lane_claim(&tables, bit_challenge, &high_point, lane_weights);

    for lane in 0..25 {
        let mut point = hypercube_point(LOG_BIT_INDEX_VARS, bit_index);
        point.extend(high_point.iter().copied());
        assert_eq!(
            claim.lane_evals[lane],
            evaluate_scalars(&tables[lane], &point),
            "domain-point lane selection mismatch for lane {lane}"
        );
    }
}

#[test]
fn test_bit_lagrange_weights_match_direct_math_helper() {
    let mut rng = StdRng::seed_from_u64(15);
    let subspace = BinarySubspace::<F>::with_dim(LOG_BIT_INDEX_VARS);
    let bit_challenge = random_scalar(&mut rng);
    let actual = bit_lagrange_weights(bit_challenge);
    let expected: [F; BIT_INDEX_SIZE] =
        lagrange_evals_scalars(&subspace, bit_challenge).try_into().unwrap();

    assert_eq!(actual, expected);
}

#[test]
fn small_field_suffix_extends_the_point() {
    let mut rng = StdRng::seed_from_u64(16);
    assert_eq!(deterministic_small_field_suffix(0), Vec::<u8>::new());
    assert_eq!(deterministic_small_field_suffix(3), vec![2u8, 4, 16]);
    let states = random_states(&mut rng, 4);
    let (high, suffix) = (random_scalars(&mut rng, 1), random_scalars(&mut rng, 1));
    let full = extend_high_point_with_small_field_suffix(&high, &suffix);
    assert_eq!(full, vec![high[0], suffix[0]]);
    let (c, w) = (random_scalar(&mut rng), random_weights(&mut rng));
    let a = bit_indexed_lane_claim_from_words_with_small_field_suffix(&states, c, &high, &suffix, w);
    let b = bit_indexed_lane_claim_from_words(&states, c, &full, w);
    assert_eq!(a.lane_evals, b.lane_evals);
    assert_eq!(a.mixed_eval, b.mixed_eval);
    assert_eq!(a.high_point, high);
}

#[test]
fn mixed_claims_mix_their_lanes() {
    let mut rng = StdRng::seed_from_u64(17);
    let (w, e) = (random_weights(&mut rng), random_weights(&mut rng));
    let claim = mixed_claim_from_evals(random_scalars(&mut rng, 2), w, e);
    let mut mixed = B128::zero();
    for i in 0..25 {
        mixed = mixed.add(w[i].mul(e[i]));
    }
    assert_eq!(claim.mixed_eval, mixed);
    let states = random_states(&mut rng, 2);
    let tables = lane_tables(&states);
    let point = random_scalars(&mut rng, 7);
    let claim = mixed_lane_claim(&tables, &point, w);
    for lane in 0..25 {
        assert_eq!(claim.lane_evals[lane], evaluate_scalars(&tables[lane], &point));
    }
}

#[test]
fn compact_traces_hold_every_round() {
    let mut rng = StdRng::seed_from_u64(18);
    let inputs = random_states(&mut rng, 2);
    let trace = compact_trace_from_inputs(&inputs);
    assert_eq!(trace.n_instances(), 2);
    assert_eq!(trace.log_n_instances(), 1);
    for i in 0..2 {
        let mut state = inputs[i];
        for r in 0..24 {
            assert_eq!(trace.round_inputs[r][i], state);
            state = round(state, r);
        }
        assert_eq!(trace.final_output[i], state);
        assert_eq!(state, permutation(inputs[i]));
    }
}

#[test]
fn grouped_reductions_of_the_wrong_shape_are_refused() {
    let mut rng = StdRng::seed_from_u64(19);
    let inputs = random_states(&mut rng, 2);
    let trace = compact_trace_from_inputs(&inputs);
    let (round_inputs, outputs, reduction) = group_fixture(&mut rng, &trace, 3);
    let outcome = |inputs: &[&[State]], outputs: &[State], red: &GroupedRoundReduction<F>| {
        validate_grouped_reduction(inputs, outputs, red)
    };
    assert_eq!(outcome(&round_inputs, outputs, &reduction), Ok(()));
    let mut bad = reduction.clone();
    bad.round_start = 22;
    assert_eq!(outcome(&round_inputs, outputs, &bad), Err(Error::InvalidRound(25)));
    let mut bad = reduction.clone();
    bad.group_size = 0;
    assert_eq!(outcome(&round_inputs, outputs, &bad), Err(Error::InvalidRound(0)));
    assert_eq!(
        outcome(&round_inputs[..2], outputs, &reduction),
        Err(Error::InvalidClaim(ClaimError::RoundInputCount))
    );
    let mut bad = reduction.clone();
    bad.transition_weights.pop();
    assert_eq!(
        outcome(&round_inputs, outputs, &bad),
        Err(Error::InvalidClaim(ClaimError::TransitionWeightCount))
    );
    let short = [&round_inputs[0][..1], round_inputs[1], round_inputs[2]];
    assert_eq!(
        outcome(&short, outputs, &reduction),
        Err(Error::InvalidClaim(ClaimError::RoundInputSize))
    );
    assert_eq!(
        outcome(&round_inputs, &outputs[..1], &reduction),
        Err(Error::InvalidClaim(ClaimError::GroupOutputSize))
    );
    assert_eq!(
        end_group_proof(&random_scalars(&mut rng, 24), &Vec::new()),
        Err(Error::InvalidClaim(ClaimError::FoldedEvaluationCount))
    );
}

#[test]
fn parallel_arguments_of_the_wrong_shape_are_refused() {
    let mut rng = StdRng::seed_from_u64(20);
    let trace = compact_trace_from_inputs(&random_states(&mut rng, 2));
    let refused = |t: &CompactTrace, k: usize| match validate_parallel_args(t, k) {
        Err(Error::InvalidClaim(e)) => Some(e),
        _ => None,
    };
    assert!(validate_parallel_args(&trace, 8).is_ok());
    assert_eq!(ClaimError::GroupSize.message(), "group_size must divide 24 evenly");
    assert_eq!(refused(&trace, 5), Some(ClaimError::GroupSize));
    assert_eq!(refused(&trace, 0), Some(ClaimError::GroupSize));
    let mut bad = trace.clone();
    bad.round_inputs.pop();
    assert_eq!(refused(&bad, 8), Some(ClaimError::TraceRounds));
    let mut bad = trace.clone();
    bad.round_inputs[3].pop();
    assert_eq!(refused(&bad, 8), Some(ClaimError::RoundSizes));
    let mut bad = trace.clone();
    bad.final_output.pop();
    assert_eq!(refused(&bad, 8), Some(ClaimError::FinalOutputSize));
    let bad = compact_trace_from_inputs(&random_states(&mut rng, 3));
    assert_eq!(refused(&bad, 8), Some(ClaimError::InstanceCount));
}

#[test]
fn prover_steps_out_of_order_are_refused() {
    let mut rng = StdRng::seed_from_u64(21);
    let trace = compact_trace_from_inputs(&random_states(&mut rng, 2));
    let (round_inputs, outputs, reduction) = group_fixture(&mut rng, &trace, 2);
    let mut prover = begin_group_proof(&round_inputs, outputs, &reduction).unwrap();
    assert_eq!(prover.n_claims(), 1);
    assert_eq!(prover.eval_point(), &reduction.output_claim.high_point[..]);
    assert_eq!(prover.fold(B128::one()), Err(SumcheckError::ExpectedExecute));
    assert_eq!(prover.finish(), Err(SumcheckError::ExpectedExecute));
    prover.execute().unwrap();
    assert_eq!(prover.execute(), Err(SumcheckError::ExpectedFold));
    assert_eq!(prover.finish(), Err(SumcheckError::ExpectedFold));
    prover.fold(random_scalar(&mut rng)).unwrap();
    assert_eq!(prover.finish().unwrap().len(), 25);
}
