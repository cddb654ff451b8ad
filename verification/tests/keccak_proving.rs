//! Keccak traces, committed layouts, constraint systems and the first round message.
use binius64::constraint_system::{
    eval_operand, eval_shifted_word, verify_constraints, AndConstraint, ConstraintSystem, Operand,
    ShiftVariant, ValueVec, Word,
};
use binius64::field::{BinaryField, BinaryField128bGhash, B128};
use binius64::keccak_prove::bit_ntt::{
    upper_half_domains, upper_half_residual_evals, NttLookup, CHI_OPERAND_LANES, LOG_LANE_BITS,
};
use binius64::keccak_prove::constants::{lane, LANE_BITS, N_LANES, N_ROUNDS, ROUND_CONSTANTS};
use binius64::keccak_prove::layout;
use binius64::keccak_prove::operands::{
    chi_iota_residual_words, chi_iota_residual_words_reference, chi_operands,
};
use binius64::keccak_prove::round_message::{
    first_round_message_evals, folded_next_sum_claim_small_weights, next_sum_claim_from_upper_half,
    par_first_round_claim_small_weights, par_upper_half_round_message,
    par_upper_half_round_message_small_weights, upper_half_round_message,
    upper_half_round_message_small_weights,
};
use binius64::keccak_prove::shift_claims::{
    chi_constraint_system, chi_constraints, committed_witness_base, d_correctness_constraint_system,
    d_correctness_constraints, d_correctness_row_count, shift_value_vec, shift_witness_words,
};
use binius64::keccak_prove::shift_evals::{
    chi_constraint_system_log_rows, d_correctness_constraint_system_log_rows,
    witness_only_chi_evals,
};
use binius64::keccak_prove::shift_operands::{
    d_correctness_operand, virtual_b_operand, RHO_PI_PREIMAGE,
};
use binius64::keccak_prove::structured::structured_bitand_monster_eval;
use binius64::keccak_prove::trace::{
    chi_iota, chi_iota_reference, permutation, round, theta_rho_pi, theta_rho_pi_reference,
    PermutationTrace, RoundTrace, State,
};
use binius64::keccak_prove::v0;
use binius64::keccak_prove::witness::{theta_corrections, CommittedKeccakWitness};
use binius64::math::lagrange::lagrange_evals_scalars;
use binius64::math::multilinear::eq_ind_partial_eval_scalars;
use binius64::math::subspace::BinarySubspace;
use binius64::verify::monster::{evaluate_monster_multilinear_for_operation, OperatorData};
use rand::rngs::StdRng;
use rand::{Rng, SeedableRng};

type F = BinaryField128bGhash;

fn random_state(rng: &mut StdRng) -> State {
    core::array::from_fn(|_| rng.random())
}

fn random_scalar(rng: &mut StdRng) -> F {
    BinaryField128bGhash(rng.random())
}

fn random_scalars(rng: &mut StdRng, n: usize) -> Vec<F> {
    (0..n).map(|_| random_scalar(rng)).collect()
}

fn message_domain() -> BinarySubspace<F> {
    BinarySubspace::<F>::with_dim(LOG_LANE_BITS + 1)
}

fn round_traces(trace: &PermutationTrace) -> Vec<RoundTrace> {
    trace.rounds.to_vec()
}

fn log2(n: usize) -> usize {
    n.ilog2() as usize
}

#[test]
fn constants_match_locked_layout() {
    assert_eq!(layout::BLOCKS_PER_PERMUTATION, 25);
    assert_eq!(layout::WORDS_PER_BLOCK, 32);
    assert_eq!(layout::A_OFFSET, 0);
    assert_eq!(layout::A_WORDS_PER_BLOCK, 25);
    assert_eq!(layout::D_OFFSET, 25);
    assert_eq!(layout::D_WORDS_PER_BLOCK, 5);
    assert_eq!(layout::PADDING_OFFSET, 30);
    assert_eq!(layout::PADDING_WORDS_PER_BLOCK, 2);
    assert_eq!(layout::WORDS_PER_PERMUTATION, 800);
    assert_eq!(layout::A_WORDS_PER_PERMUTATION, 625);
    assert_eq!(layout::D_WORDS_PER_PERMUTATION, 120);
    assert_eq!(layout::ACTIVE_WORDS_PER_PERMUTATION, 745);
    assert_eq!(layout::PADDING_WORDS_PER_PERMUTATION, 55);
}

#[test]
fn indices_follow_block_formula() {
    assert_eq!(layout::block_index(0, 0), 0);
    assert_eq!(layout::block_index(0, 1), 32);
    assert_eq!(layout::block_index(1, 0), 800);
    assert_eq!(layout::a_index(1, 2, 7), 800 + 2 * 32 + 7);
    assert_eq!(layout::d_index(1, 2, 3), 800 + 2 * 32 + 25 + 3);
    assert_eq!(layout::padding_index(1, 24, 1), 800 + 24 * 32 + 31);
    assert_eq!(layout::witness_len(3), 2400);
}

#[test]
fn keccak_bitand_residual_matches_native_round() {
    let mut rng = StdRng::seed_from_u64(1);

    for _ in 0..8 {
        let trace = PermutationTrace::new(random_state(&mut rng));

        for round in 0..N_ROUNDS {
            let round_trace = trace.rounds[round];
            let residual =
                chi_iota_residual_words(&round_trace.pre_chi, &round_trace.output, round);

            assert_eq!(residual, [0u64; N_LANES], "round {round}");
            assert_eq!(
                residual,
                chi_iota_residual_words_reference(
                    &round_trace.pre_chi,
                    &round_trace.output,
                    round
                )
            );
        }
    }
}

/// A residual is nonzero in the lane where the output differs from the round.
#[test]
fn residual_shows_a_wrong_output() {
    let mut rng = StdRng::seed_from_u64(101);
    let trace = PermutationTrace::new(random_state(&mut rng));
    let t = trace.rounds[5];
    let mut next = t.output;
    next[7] ^= 0x10;
    let residual = chi_iota_residual_words(&t.pre_chi, &next, 5);
    for l in 0..N_LANES {
        assert_eq!(residual[l], if l == 7 { 0x10 } else { 0 });
    }
}

#[test]
fn chi_operands_match_lane_neighbors() {
    let pre_chi: State = std::array::from_fn(|i| 1u64 << i);

    for y in 0..5 {
        for x in 0..5 {
            let operands = chi_operands(&pre_chi, x, y);
            assert_eq!(operands.p, !pre_chi[lane((x + 1) % 5, y)]);
            assert_eq!(operands.q, pre_chi[lane((x + 2) % 5, y)]);
            assert_eq!(operands.r, pre_chi[lane(x, y)]);
        }
    }
}

#[test]
fn rho_pi_preimage_matches_keccak_formula() {
    for b_lane in 0..N_LANES {
        let source_lane = RHO_PI_PREIMAGE[b_lane];
        let x = source_lane % 5;
        let y = source_lane / 5;
        assert_eq!(b_lane, lane(y, (2 * x + 3 * y) % 5));
    }
}

#[test]
fn virtual_b_operand_evaluates_pre_chi_lane() {
    let mut rng = StdRng::seed_from_u64(23);
    let trace = PermutationTrace::new(random_state(&mut rng));
    let witness = CommittedKeccakWitness::from_traces(std::slice::from_ref(&trace));

    for round in 0..N_ROUNDS {
        for b_lane in 0..N_LANES {
            assert_eq!(
                eval_operand(witness.words(), &virtual_b_operand(0, round, b_lane)),
                Word(trace.rounds[round].pre_chi[b_lane]),
                "round={round} b_lane={b_lane}",
            );
        }
    }
}

#[test]
fn d_correctness_operand_evaluates_to_zero() {
    let mut rng = StdRng::seed_from_u64(24);
    let trace = PermutationTrace::new(random_state(&mut rng));
    let witness = CommittedKeccakWitness::from_traces(std::slice::from_ref(&trace));

    for round in 0..N_ROUNDS {
        assert_eq!(
            theta_corrections(&trace.rounds[round].input),
            std::array::from_fn::<u64, 5, _>(|x| witness.d(0, round, x).0)
        );
        for x in 0..layout::D_WORDS_PER_BLOCK {
            assert_eq!(
                eval_operand(witness.words(), &d_correctness_operand(0, round, x)),
                Word(0),
                "round={round} x={x}",
            );
        }
    }
}

#[test]
fn trace_rounds_chain() {
    let mut rng = StdRng::seed_from_u64(0);
    let input = random_state(&mut rng);
    let trace = PermutationTrace::new(input);

    assert_eq!(trace.rounds[0].input, input);
    for round_idx in 0..N_ROUNDS {
        assert_eq!(
            trace.rounds[round_idx].output,
            round(trace.rounds[round_idx].input, round_idx)
        );
        if round_idx + 1 < N_ROUNDS {
            assert_eq!(trace.rounds[round_idx].output, trace.rounds[round_idx + 1].input);
        }
    }
}

#[test]
fn unrolled_round_steps_match_reference() {
    let mut rng = StdRng::seed_from_u64(2);

    for _ in 0..32 {
        let input = random_state(&mut rng);
        let pre_chi = theta_rho_pi(input);

        assert_eq!(pre_chi, theta_rho_pi_reference(input));
        for round_idx in 0..N_ROUNDS {
            assert_eq!(chi_iota(pre_chi, round_idx), chi_iota_reference(pre_chi, round_idx));
            assert_eq!(round(input, round_idx), chi_iota_reference(pre_chi, round_idx));
        }
    }
}

/// The permutation of the zero state is the known one.
#[test]
fn permutation_of_zero() {
    let out = permutation([0u64; N_LANES]);
    assert_eq!(out[0], 0xf1258f7940e1dde7);
    assert_eq!(out[1], 0x84d5ccf933c0478a);
    assert_eq!(out[24], 0xeaf1ff7b5ceca249);
}

fn theta_corrections_direct(state: &State) -> [u64; 5] {
    let c = std::array::from_fn::<_, 5, _>(|x| {
        state[lane(x, 0)]
            ^ state[lane(x, 1)]
            ^ state[lane(x, 2)]
            ^ state[lane(x, 3)]
            ^ state[lane(x, 4)]
    });

    [
        c[4] ^ c[1].rotate_left(1),
        c[0] ^ c[2].rotate_left(1),
        c[1] ^ c[3].rotate_left(1),
        c[2] ^ c[4].rotate_left(1),
        c[3] ^ c[0].rotate_left(1),
    ]
}

#[test]
fn theta_corrections_match_reference() {
    let mut rng = StdRng::seed_from_u64(21);

    for _ in 0..32 {
        let state = random_state(&mut rng);
        assert_eq!(theta_corrections(&state), theta_corrections_direct(&state));
    }
}

#[test]
fn witness_materializes_a_and_d_with_padding_zero() {
    let mut rng = StdRng::seed_from_u64(22);
    let traces: Vec<_> = (0..2).map(|_| PermutationTrace::new(random_state(&mut rng))).collect();
    let witness = CommittedKeccakWitness::from_traces(&traces);

    assert_eq!(witness.n_permutations(), traces.len());
    assert_eq!(witness.words().len(), layout::witness_len(traces.len()));

    for (permutation, trace) in traces.iter().enumerate() {
        for round in 0..N_ROUNDS {
            for lane in 0..N_LANES {
                assert_eq!(
                    witness.a(permutation, round, lane),
                    Word(trace.rounds[round].input[lane]),
                );
            }

            let d = theta_corrections(&trace.rounds[round].input);
            for (x, &d_x) in d.iter().enumerate() {
                assert_eq!(witness.d(permutation, round, x), Word(d_x));
            }
        }

        for lane in 0..N_LANES {
            assert_eq!(witness.a(permutation, N_ROUNDS, lane), Word(trace.output()[lane]));
        }

        for round_block in 0..layout::BLOCKS_PER_PERMUTATION {
            for padding_slot in 0..layout::PADDING_WORDS_PER_BLOCK {
                assert_eq!(
                    witness.words()[layout::padding_index(permutation, round_block, padding_slot)],
                    Word(0),
                );
            }
        }

        for x in 0..layout::D_WORDS_PER_BLOCK {
            assert_eq!(
                witness.words()
                    [layout::block_slot_index(permutation, N_ROUNDS, layout::D_OFFSET + x)],
                Word(0),
            );
        }
    }
}

fn eval_word_direct(lagrange_evals: &[F], word: u64) -> F {
    let mut result = B128::zero();
    for (bit_idx, &lagrange_eval) in lagrange_evals.iter().enumerate() {
        if (word >> bit_idx) & 1 == 1 {
            result = result.add(lagrange_eval);
        }
    }
    result
}

#[test]
fn ntt_lookup_matches_direct_lagrange_eval() {
    let (input_domain, output_domain) = upper_half_domains::<F>(&message_domain());
    let lookup = NttLookup::<F>::new(&input_domain, &output_domain);
    let lagrange: Vec<Vec<F>> =
        output_domain.iter().map(|&p| lagrange_evals_scalars(&input_domain, p)).collect();
    let mut rng = StdRng::seed_from_u64(3);

    for _ in 0..16 {
        let word = rng.random::<u64>();
        let evals = lookup.eval_word(word);

        for i in 0..output_domain.len() {
            assert_eq!(evals[i], eval_word_direct(&lagrange[i], word));
        }
    }
}

#[test]
fn ntt_lookup_is_linear_over_xor() {
    let lookup = NttLookup::<F>::for_upper_half_domain(&message_domain());
    let mut rng = StdRng::seed_from_u64(5);
    let (a, b) = (rng.random::<u64>(), rng.random::<u64>());
    let (x, y, both) = (lookup.eval_word(a), lookup.eval_word(b), lookup.eval_word(a ^ b));
    for i in 0..64 {
        assert_eq!(both[i], x[i].add(y[i]));
    }
    assert_eq!(lookup.eval_word(0).to_vec(), vec![F::zero(); 64]);
}

#[test]
fn upper_half_residual_evals_match_direct_extension() {
    let (input_domain, output_domain) = upper_half_domains::<F>(&message_domain());
    let lookup = NttLookup::<F>::new(&input_domain, &output_domain);
    let lagrange: Vec<Vec<F>> =
        output_domain.iter().map(|&p| lagrange_evals_scalars(&input_domain, p)).collect();
    let mut rng = StdRng::seed_from_u64(4);

    for _ in 0..4 {
        let trace = PermutationTrace::new(random_state(&mut rng));

        for round in 0..N_ROUNDS {
            let round_trace = trace.rounds[round];
            let residuals = upper_half_residual_evals(
                &lookup,
                &round_trace.pre_chi,
                &round_trace.output,
                round,
            );

            for lane_idx in 0..N_LANES {
                let (p_lane, q_lane, r_lane) = CHI_OPERAND_LANES[lane_idx];
                let iota = if lane_idx == 0 { ROUND_CONSTANTS[round] } else { 0 };

                for i in 0..output_domain.len() {
                    let p = eval_word_direct(&lagrange[i], !round_trace.pre_chi[p_lane]);
                    let q = eval_word_direct(&lagrange[i], round_trace.pre_chi[q_lane]);
                    let r = eval_word_direct(&lagrange[i], round_trace.pre_chi[r_lane]);
                    let next = eval_word_direct(&lagrange[i], round_trace.output[lane_idx]);
                    let iota = eval_word_direct(&lagrange[i], iota);

                    assert_eq!(
                        residuals[lane_idx][i],
                        p.mul(q).add(r).add(next).add(iota),
                        "round {round}, lane {lane_idx}, eval {i}"
                    );
                }
            }
        }
    }
}

#[test]
fn valid_keccak_trace_parallel_matches_sequential() {
    let mut rng = StdRng::seed_from_u64(12);
    let lookup = NttLookup::<F>::for_upper_half_domain(&message_domain());
    let trace = PermutationTrace::new(random_state(&mut rng));
    let traces = round_traces(&trace);
    let eq_weights = random_scalars(&mut rng, traces.len() * N_LANES);

    assert_eq!(
        par_upper_half_round_message::<F, F>(&lookup, &traces, &eq_weights),
        upper_half_round_message::<F, F>(&lookup, &traces, &eq_weights)
    );
}

#[test]
fn parallel_round_message_matches_sequential() {
    let mut rng = StdRng::seed_from_u64(13);
    let lookup = NttLookup::<F>::for_upper_half_domain(&message_domain());
    let mut trace = PermutationTrace::new(random_state(&mut rng));
    trace.rounds[7].output[3] ^= 0x0123_4567_89ab_cdef;

    let traces = round_traces(&trace);
    let eq_weights = random_scalars(&mut rng, N_ROUNDS * N_LANES);

    assert_eq!(
        par_upper_half_round_message::<F, F>(&lookup, &traces, &eq_weights),
        upper_half_round_message::<F, F>(&lookup, &traces, &eq_weights)
    );
}

#[test]
fn small_weight_round_message_matches_generic_round_message() {
    let mut rng = StdRng::seed_from_u64(14);
    let lookup = NttLookup::<F>::for_upper_half_domain(&message_domain());
    let mut trace = PermutationTrace::new(random_state(&mut rng));
    trace.rounds[11].output[9] ^= 0xfedc_ba98_7654_3210;

    let traces = round_traces(&trace);
    let weights = random_scalars(&mut rng, N_ROUNDS * N_LANES);

    assert_eq!(
        upper_half_round_message_small_weights::<F, F>(&lookup, &traces, &weights),
        upper_half_round_message::<F, F>(&lookup, &traces, &weights)
    );
    assert_eq!(
        par_upper_half_round_message_small_weights::<F, F>(&lookup, &traces, &weights),
        upper_half_round_message::<F, F>(&lookup, &traces, &weights)
    );
}

#[test]
fn first_round_claim_matches_manual_extrapolation() {
    let mut rng = StdRng::seed_from_u64(15);
    let domain = message_domain();
    let lookup = NttLookup::<F>::for_upper_half_domain(&domain);
    let trace = PermutationTrace::new(random_state(&mut rng));

    let traces = round_traces(&trace);
    let weights = random_scalars(&mut rng, N_ROUNDS * N_LANES);
    let challenge = random_scalar(&mut rng);
    let upper_half =
        par_upper_half_round_message_small_weights::<F, F>(&lookup, &traces, &weights);
    let message_evals = first_round_message_evals(&upper_half);
    assert_eq!(message_evals.len(), 2 * LANE_BITS);
    assert_eq!(&message_evals[..LANE_BITS], [B128::zero(); LANE_BITS]);
    assert_eq!(&message_evals[LANE_BITS..], upper_half);

    assert_eq!(
        par_first_round_claim_small_weights::<F, F>(&lookup, &traces, &weights, challenge, &domain),
        next_sum_claim_from_upper_half(&upper_half, challenge, &domain)
    );
    assert_eq!(
        folded_next_sum_claim_small_weights::<F, F>(&traces, &weights, challenge, &domain),
        next_sum_claim_from_upper_half(&upper_half, challenge, &domain)
    );
}

/// On a trace that is not valid the folded claim is not the extrapolated one.
#[test]
fn first_round_claim_tells_an_invalid_trace() {
    let mut rng = StdRng::seed_from_u64(16);
    let domain = message_domain();
    let lookup = NttLookup::<F>::for_upper_half_domain(&domain);
    let mut trace = PermutationTrace::new(random_state(&mut rng));
    trace.rounds[3].output[4] ^= 1;
    let traces = round_traces(&trace);
    let weights = random_scalars(&mut rng, N_ROUNDS * N_LANES);
    let challenge = random_scalar(&mut rng);
    assert_ne!(
        par_first_round_claim_small_weights::<F, F>(&lookup, &traces, &weights, challenge, &domain),
        folded_next_sum_claim_small_weights::<F, F>(&traces, &weights, challenge, &domain)
    );
}

fn eval_operand_words(words: &[Word], operand: &Operand) -> Word {
    let mut acc = 0u64;
    for term in operand {
        acc ^= eval_shifted_word(
            words[term.value_index.0 as usize],
            term.shift_variant,
            term.amount,
        )
        .0;
    }
    Word(acc)
}

fn compute_bitand_images(constraints: &[AndConstraint], value_vec: &ValueVec) -> [Vec<Word>; 3] {
    let column = |f: fn(&AndConstraint) -> &Operand| {
        constraints.iter().map(|c| eval_operand(&value_vec.data, f(c))).collect::<Vec<Word>>()
    };
    [column(|c| &c.a), column(|c| &c.b), column(|c| &c.c)]
}

fn evaluate_image(
    subspace: &BinarySubspace<F>,
    image: &[Word],
    r_zhat_prime: F,
    r_x_prime_tensor: &[F],
) -> F {
    let l_tilde = lagrange_evals_scalars(subspace, r_zhat_prime);
    let mut acc = B128::zero();
    for (word, &weight) in image.iter().zip(r_x_prime_tensor.iter()) {
        acc = acc.add(weight.mul(eval_word_direct(&l_tilde, word.0)));
    }
    acc
}

fn chi_constraint_row_index(permutation: usize, round: usize, lane_idx: usize) -> usize {
    (permutation * N_ROUNDS + round) * N_LANES + lane_idx
}

#[test]
fn shift_value_layout_places_committed_witness_after_public_segment() {
    let mut rng = StdRng::seed_from_u64(25);
    let trace = PermutationTrace::new(random_state(&mut rng));
    let witness = CommittedKeccakWitness::from_traces(std::slice::from_ref(&trace));
    let shifted = shift_witness_words(&witness);
    let value_vec = shift_value_vec(&witness);

    assert_eq!(committed_witness_base(), 2);
    assert_eq!(shifted.len(), value_vec.layout.committed_total_len);
    assert_eq!(
        &shifted[committed_witness_base()..committed_witness_base() + witness.words().len()],
        witness.words()
    );
    assert!(shifted[..committed_witness_base()].iter().all(|&word| word == Word(0)));
}

#[test]
fn chi_constraints_lower_to_virtual_b_and_next_state() {
    let mut rng = StdRng::seed_from_u64(26);
    let trace = PermutationTrace::new(random_state(&mut rng));
    let witness = CommittedKeccakWitness::from_traces(std::slice::from_ref(&trace));
    let shifted = shift_witness_words(&witness);
    let constraints = chi_constraints(1);

    assert_eq!(constraints.len(), N_ROUNDS * N_LANES);
    for round in 0..N_ROUNDS {
        for lane_idx in 0..N_LANES {
            let row = chi_constraint_row_index(0, round, lane_idx);
            let (p_lane, q_lane, r_lane) = CHI_OPERAND_LANES[lane_idx];
            let constraint = &constraints[row];

            assert_eq!(
                eval_operand_words(&shifted, &constraint.a),
                Word(trace.rounds[round].pre_chi[p_lane]),
                "round={round} lane={lane_idx} p",
            );
            assert_eq!(
                eval_operand_words(&shifted, &constraint.b),
                Word(trace.rounds[round].pre_chi[q_lane]),
                "round={round} lane={lane_idx} q",
            );
            assert_eq!(
                eval_operand_words(&shifted, &constraint.c),
                Word(trace.rounds[round].pre_chi[r_lane] ^ trace.rounds[round].output[lane_idx]),
                "round={round} lane={lane_idx} c",
            );
        }
    }
}

#[test]
fn d_correctness_constraints_are_satisfied_as_degenerate_and_rows() {
    let mut rng = StdRng::seed_from_u64(27);
    let trace = PermutationTrace::new(random_state(&mut rng));
    let witness = CommittedKeccakWitness::from_traces(std::slice::from_ref(&trace));
    let constraints = d_correctness_constraints(1);
    let value_vec = shift_value_vec(&witness);

    assert_eq!(constraints.len(), N_ROUNDS * layout::D_WORDS_PER_BLOCK);
    for constraint in &constraints {
        assert!(constraint.a.is_empty());
        assert!(constraint.b.is_empty());
        assert_eq!(eval_operand(&value_vec.data, &constraint.c), Word(0));
    }
}

#[test]
fn d_correctness_constraint_system_validates_and_verifies() {
    let mut rng = StdRng::seed_from_u64(28);
    let traces: Vec<_> = (0..2).map(|_| PermutationTrace::new(random_state(&mut rng))).collect();
    let witness = CommittedKeccakWitness::from_traces(&traces);
    let cs = d_correctness_constraint_system(traces.len());
    let value_vec = shift_value_vec(&witness);

    verify_constraints(&cs, &value_vec).unwrap();
    assert_eq!(
        cs.and_constraints.len(),
        d_correctness_row_count(traces.len()).next_power_of_two()
    );
    assert_eq!(
        cs.and_constraints.len(),
        1 << d_correctness_constraint_system_log_rows(traces.len())
    );

    let mut broken = value_vec.clone();
    broken.data[committed_witness_base() + layout::d_index(0, 3, 2)].0 ^= 1;
    assert!(verify_constraints(&cs, &broken).is_err());
}

#[test]
fn transparent_chi_corrections_match_full_operands() {
    let mut rng = StdRng::seed_from_u64(29);
    let trace = PermutationTrace::new(random_state(&mut rng));
    let witness = CommittedKeccakWitness::from_traces(std::slice::from_ref(&trace));
    let value_vec = shift_value_vec(&witness);
    let cs = chi_constraint_system(1);
    let subspace = BinarySubspace::<F>::with_dim(6);
    let r_x_prime = random_scalars(&mut rng, chi_constraint_system_log_rows(1));
    let r_zhat_prime = random_scalar(&mut rng);
    let row_weights = eq_ind_partial_eval_scalars(&r_x_prime);

    let images = compute_bitand_images(&cs.and_constraints, &value_vec);
    let witness_only_evals = images
        .clone()
        .map(|image| evaluate_image(&subspace, &image, r_zhat_prime, &row_weights));

    let mut full_p_image = images[0].clone();
    let full_q_image = images[1].clone();
    let mut full_c_image = images[2].clone();
    for round in 0..N_ROUNDS {
        for lane_idx in 0..N_LANES {
            let row = chi_constraint_row_index(0, round, lane_idx);
            full_p_image[row].0 ^= u64::MAX;
            if lane_idx == 0 {
                full_c_image[row].0 ^= ROUND_CONSTANTS[round];
            }
        }
    }

    let full_p_eval = evaluate_image(&subspace, &full_p_image, r_zhat_prime, &row_weights);
    let full_q_eval = evaluate_image(&subspace, &full_q_image, r_zhat_prime, &row_weights);
    let full_c_eval = evaluate_image(&subspace, &full_c_image, r_zhat_prime, &row_weights);

    assert_eq!(
        witness_only_chi_evals(
            1,
            r_zhat_prime,
            &r_x_prime,
            &subspace,
            full_p_eval,
            full_q_eval,
            full_c_eval
        ),
        witness_only_evals
    );
}

fn v0_fixture(seed: u64, n: usize) -> (ConstraintSystem, ValueVec) {
    let mut rng = StdRng::seed_from_u64(seed);
    let traces: Vec<_> = (0..n).map(|_| PermutationTrace::new(random_state(&mut rng))).collect();
    let witness = CommittedKeccakWitness::from_traces(&traces);
    (v0::constraint_system(n), v0::value_vec(&witness))
}

#[test]
fn v0_constraint_system_satisfies_native_keccak_traces() {
    let (cs, value_vec) = v0_fixture(33, 2);
    verify_constraints(&cs, &value_vec).unwrap();
    assert_eq!(value_vec.data[v0::ALL_ONE_INDEX], Word(u64::MAX));
    for (round, &round_constant) in ROUND_CONSTANTS.iter().enumerate() {
        assert_eq!(value_vec.data[v0::ROUND_CONSTANTS_OFFSET + round], Word(round_constant));
    }
}

/// The system rejects a state that does not follow from the one before it.
#[test]
fn v0_constraint_system_rejects_a_changed_state() {
    let (cs, mut value_vec) = v0_fixture(36, 1);
    value_vec.data[v0::committed_witness_base() + layout::a_index(0, 9, 13)].0 ^= 1 << 40;
    assert!(verify_constraints(&cs, &value_vec).is_err());
}

#[test]
fn structured_monster_eval_matches_generic_shift_verifier() {
    let mut rng = StdRng::seed_from_u64(35);
    let n_permutations = 2;
    let cs = v0::constraint_system(n_permutations);
    let subspace = BinarySubspace::<F>::with_dim(6);
    let operator_data = OperatorData {
        r_zhat_prime: random_scalar(&mut rng),
        r_x_prime: random_scalars(&mut rng, log2(cs.and_constraints.len())),
        evals: std::array::from_fn(|_| random_scalar(&mut rng)),
    };
    let lambda = random_scalar(&mut rng);
    let r_j = random_scalars(&mut rng, 6);
    let r_s = random_scalars(&mut rng, 6);
    let r_y = random_scalars(&mut rng, log2(cs.value_vec_layout.committed_total_len));

    let mut a = Vec::<&Operand>::with_capacity(cs.and_constraints.len());
    let mut b = Vec::<&Operand>::with_capacity(cs.and_constraints.len());
    let mut c = Vec::<&Operand>::with_capacity(cs.and_constraints.len());
    for constraint in &cs.and_constraints {
        a.push(&constraint.a);
        b.push(&constraint.b);
        c.push(&constraint.c);
    }
    let generic = evaluate_monster_multilinear_for_operation(
        &[a, b, c],
        &operator_data,
        &subspace,
        lambda,
        &r_j,
        &r_s,
        &r_y,
    );
    let structured = structured_bitand_monster_eval(
        n_permutations,
        &operator_data,
        &subspace,
        lambda,
        &r_j,
        &r_s,
        &r_y,
    );

    assert_eq!(structured, generic);
}

#[test]
fn shifts_on_given_words() {
    let x = Word(0x8000_0001_8000_0003);
    assert_eq!(eval_shifted_word(x, ShiftVariant::Sll, 4), Word(0x0000_0018_0000_0030));
    assert_eq!(eval_shifted_word(x, ShiftVariant::Slr, 4), Word(0x0800_0000_1800_0000));
    assert_eq!(eval_shifted_word(x, ShiftVariant::Sar, 4), Word(0xf800_0000_1800_0000));
    assert_eq!(eval_shifted_word(x, ShiftVariant::Rotr, 4), Word(0x3800_0000_1800_0000));
    assert_eq!(eval_shifted_word(x, ShiftVariant::Sll32, 4), Word(0x0000_0010_0000_0030));
    assert_eq!(eval_shifted_word(x, ShiftVariant::Srl32, 4), Word(0x0800_0000_0800_0000));
    assert_eq!(eval_shifted_word(x, ShiftVariant::Sra32, 4), Word(0xf800_0000_f800_0000));
    assert_eq!(eval_shifted_word(x, ShiftVariant::Rotr32, 4), Word(0x1800_0000_3800_0000));
    assert_eq!(eval_shifted_word(x, ShiftVariant::Rotr, 0), x);
}
