//! The prover's setup, its columns and the sequence of a proof.
use binius64::constraint_system::{
    verify_constraints, AndConstraint, ConstraintSystem, MulConstraint, ShiftVariant,
    ShiftedValueIndex, ValueIndex, ValueVec, ValueVecLayout, Word,
};
use binius64::field::{BinaryField, BinaryField128bGhash, B128};
use binius64::math::lagrange::lagrange_evals_scalars;
use binius64::math::multilinear::{eq_ind_partial_eval_scalars, evaluate_scalars};
use binius64::math::subspace::BinarySubspace;
use binius64::math::sums::inner_product;
use binius64::prover::run::{zerocheck_challenge_counts, AndCheckOutput, IntMulOutput};
use binius64::prover::witness::{
    build_bitand_witness, build_intmul_witness, compute_batched_transparent, pack_witness,
};
use binius64::prover::{IOPProver, ProveAction, ProveRun, ProverError, ShiftKeySource};
use binius64::verify::repeated::RepeatedConstraintSystem;
use rand::rngs::StdRng;
use rand::{Rng, SeedableRng};

type F = BinaryField128bGhash;

fn random_scalars(rng: &mut StdRng, n: usize) -> Vec<F> {
    (0..n).map(|_| BinaryField128bGhash(rng.random())).collect()
}

fn layout(total: usize) -> ValueVecLayout {
    ValueVecLayout {
        n_const: 0,
        n_inout: 2,
        n_witness: total - 2,
        n_internal: 0,
        offset_inout: 0,
        offset_witness: 2,
        committed_total_len: total,
        n_scratch: 0,
    }
}

fn values(rng: &mut StdRng, total: usize) -> ValueVec {
    ValueVec { layout: layout(total), data: (0..total).map(|_| Word(rng.random())).collect() }
}

fn term(i: u32, shift_variant: ShiftVariant, amount: usize) -> ShiftedValueIndex {
    ShiftedValueIndex { value_index: ValueIndex(i), shift_variant, amount }
}

fn plain(i: u32) -> Vec<ShiftedValueIndex> {
    vec![ShiftedValueIndex::plain(ValueIndex(i))]
}

fn system(offset: u32) -> (Vec<AndConstraint>, Vec<MulConstraint>) {
    (
        vec![AndConstraint {
            a: vec![term(offset, ShiftVariant::Sll, 3), term(offset + 1, ShiftVariant::Rotr, 9)],
            b: plain(offset + 1),
            c: plain(offset + 2),
        }],
        vec![MulConstraint {
            a: plain(offset),
            b: plain(offset + 1),
            lo: plain(offset + 2),
            hi: plain(offset + 3),
        }],
    )
}

fn base_system() -> ConstraintSystem {
    let (and_constraints, mul_constraints) = system(0);
    ConstraintSystem {
        value_vec_layout: layout(4),
        constants: Vec::new(),
        and_constraints,
        mul_constraints,
    }
}

fn flat_system(log_instances: usize) -> ConstraintSystem {
    let mut and_constraints = Vec::new();
    let mut mul_constraints = Vec::new();
    for i in 0..1u32 << log_instances {
        let (a, m) = system(4 * i);
        and_constraints.extend(a);
        mul_constraints.extend(m);
    }
    ConstraintSystem {
        value_vec_layout: layout(4 << log_instances),
        constants: Vec::new(),
        and_constraints,
        mul_constraints,
    }
}

#[test]
fn witness_words_are_packed_in_pairs() {
    let mut rng = StdRng::seed_from_u64(1);
    let v = values(&mut rng, 16);
    let packed = pack_witness(3, &v).unwrap();
    assert_eq!(packed.len(), 8);
    for j in 0..8 {
        let expected = ((v.data[2 * j + 1].0 as u128) << 64) | v.data[2 * j].0 as u128;
        assert_eq!(packed[j], BinaryField128bGhash(expected));
    }
    assert!(matches!(pack_witness(2, &v), Err(ProverError::WitnessTooLarge)));
}

#[test]
fn operand_columns_hold_the_operands() {
    let mut rng = StdRng::seed_from_u64(2);
    let v = values(&mut rng, 16);
    let flat = flat_system(2);
    let w = build_bitand_witness(&flat.and_constraints, &v);
    let m = build_intmul_witness(&flat.mul_constraints, &v);
    for i in 0..4 {
        let d = |k: usize| v.data[4 * i + k].0;
        assert_eq!(w.a[i], Word((d(0) << 3) ^ d(1).rotate_right(9)));
        assert_eq!(w.b[i], Word(d(1)));
        assert_eq!(w.c[i], Word(d(2)));
        assert_eq!((m.a[i], m.b[i]), (Word(d(0)), Word(d(1))));
        assert_eq!((m.lo[i], m.hi[i]), (Word(d(2)), Word(d(3))));
    }
}

#[test]
fn product_columns_agree_exactly_where_the_constraints_hold() {
    let mut rng = StdRng::seed_from_u64(4);
    let mut system = base_system();
    system.and_constraints.clear();
    let mut v = values(&mut rng, 4);
    let product = v.data[0].0 as u128 * v.data[1].0 as u128;
    v.data[2] = Word(product as u64);
    v.data[3] = Word((product >> 64) as u64);
    let m = build_intmul_witness(&system.mul_constraints, &v);
    let rows_agree = m.a[0].0 as u128 * m.b[0].0 as u128
        == ((m.hi[0].0 as u128) << 64) | m.lo[0].0 as u128;
    assert!(rows_agree);
    assert!(verify_constraints(&system, &v).is_ok());

    v.data[3].0 ^= 1;
    let m = build_intmul_witness(&system.mul_constraints, &v);
    let rows_agree = m.a[0].0 as u128 * m.b[0].0 as u128
        == ((m.hi[0].0 as u128) << 64) | m.lo[0].0 as u128;
    assert!(!rows_agree);
    assert!(verify_constraints(&system, &v).is_err());
}

#[test]
fn batched_transparent_adds_the_public_check() {
    let mut rng = StdRng::seed_from_u64(3);
    let rs = random_scalars(&mut rng, 16);
    let point = random_scalars(&mut rng, 2);
    let coeff = BinaryField128bGhash(rng.random());
    let out = compute_batched_transparent(rs.clone(), &point, coeff);
    let eq = eq_ind_partial_eval_scalars(&point);
    for i in 0..16 {
        let expected = if i < 4 { rs[i].add(eq[i].mul(coeff)) } else { rs[i] };
        assert_eq!(out[i], expected);
    }
}

#[test]
fn repeated_setup_checks_the_descriptor_and_the_keys() {
    let repeated = RepeatedConstraintSystem::new(base_system(), b"base", 2);
    let prover =
        IOPProver::new_repeated(flat_system(2), 1, 3, repeated.clone(), "keys", 4).unwrap();
    assert_eq!(*prover.key_collection(), "keys");
    assert_eq!(prover.constraint_system().and_constraints.len(), 4);

    let mut other = flat_system(2);
    other.and_constraints[1].a.swap(0, 1);
    let e = IOPProver::new_repeated(other, 1, 3, repeated.clone(), "keys", 4).err().unwrap();
    assert_eq!(e, ProverError::RepeatedSystemMismatch);
    assert_eq!(e.arg(), "repeated");
    assert_eq!(e.msg(), "repeated descriptor does not match the flat constraint system");

    let e = IOPProver::new_repeated(flat_system(2), 1, 3, repeated, "keys", 16).err().unwrap();
    assert_eq!(e, ProverError::BaseKeyCollectionMismatch);
    assert_eq!(e.arg(), "base_key_collection");
    assert_eq!(e.msg(), "base key collection does not match repeated base value count");
}

fn test_term(value_index: usize, seed: usize) -> ShiftedValueIndex {
    let amount = (seed * 7 + 3) % 64;
    if amount == 0 {
        return ShiftedValueIndex::plain(ValueIndex(value_index as u32));
    }
    let shift_variant = match seed % 4 {
        0 => ShiftVariant::Sll,
        1 => ShiftVariant::Slr,
        2 => ShiftVariant::Sar,
        _ => ShiftVariant::Rotr,
    };
    term(value_index as u32, shift_variant, amount)
}

fn make_base_constraint_system(
    base_constraint_count: usize,
    base_value_count: usize,
) -> ConstraintSystem {
    let n = base_value_count;
    let and_constraints = (0..base_constraint_count)
        .map(|row| AndConstraint {
            a: vec![
                test_term((row * 3 + 1) % n, row),
                test_term((row * 5 + 7) % n, row + 1),
            ],
            b: vec![
                test_term((row * 11 + 13) % n, row + 2),
                test_term((row * 17 + 19) % n, row + 3),
            ],
            c: vec![
                test_term((row * 23 + 29) % n, row + 4),
                test_term((row * 31 + 37) % n, row + 5),
            ],
        })
        .collect();
    let mut system = ConstraintSystem {
        value_vec_layout: layout(n),
        constants: Vec::new(),
        and_constraints,
        mul_constraints: Vec::new(),
    };
    system.prepare();
    system
}

fn moved(operand: &[ShiftedValueIndex], offset: usize) -> Vec<ShiftedValueIndex> {
    operand
        .iter()
        .map(|t| term(t.value_index.0 + offset as u32, t.shift_variant, t.amount))
        .collect()
}

fn copies(base: &ConstraintSystem, log_instances: usize) -> ConstraintSystem {
    let values = base.value_vec_layout.committed_total_len;
    let mut and_constraints = Vec::new();
    let mut mul_constraints = Vec::new();
    for offset in (0..1usize << log_instances).map(|i| i * values) {
        and_constraints.extend(base.and_constraints.iter().map(|c| AndConstraint {
            a: moved(&c.a, offset),
            b: moved(&c.b, offset),
            c: moved(&c.c, offset),
        }));
        mul_constraints.extend(base.mul_constraints.iter().map(|c| MulConstraint {
            a: moved(&c.a, offset),
            b: moved(&c.b, offset),
            lo: moved(&c.lo, offset),
            hi: moved(&c.hi, offset),
        }));
    }
    ConstraintSystem {
        value_vec_layout: layout(values << log_instances),
        constants: Vec::new(),
        and_constraints,
        mul_constraints,
    }
}

#[test]
fn repeated_prover_rejects_same_shape_different_flat_circuit() {
    let base = make_base_constraint_system(1 << 4, 1 << 5);
    let mut flat_constraint_system = copies(&base, 2);
    let repeated = RepeatedConstraintSystem::new(base, b"base", 2);
    assert!(repeated.matches_flat_constraint_system(&flat_constraint_system));
    let first_second_instance_row = repeated.base().and_constraints.len();
    flat_constraint_system.and_constraints[first_second_instance_row].a.swap(0, 1);

    assert!(repeated.matches_flat_shape(&flat_constraint_system));
    assert!(!repeated.matches_flat_constraint_system(&flat_constraint_system));

    assert!(
        IOPProver::new_repeated(flat_constraint_system, 1, 6, repeated, "base keys", 32).is_err()
    );
}

#[test]
fn key_sources_follow_the_setup() {
    let repeated = RepeatedConstraintSystem::new(base_system(), b"base", 2);
    let flat = IOPProver::new(flat_system(2), 1, 3, "flat keys");
    assert!(matches!(flat.flat_key_source(), Ok(ShiftKeySource::Flat(&"flat keys"))));
    assert!(matches!(flat.repeated_key_source(&repeated), Ok(ShiftKeySource::Flat(_))));

    let compact =
        IOPProver::new_repeated(flat_system(2), 1, 3, repeated.clone(), "base keys", 4).unwrap();
    let e = compact.flat_key_source().err().unwrap();
    assert_eq!(e, ProverError::RepeatedShiftKeys);
    assert_eq!(e.arg(), "prover");
    assert_eq!(e.msg(), "prover was set up with repeated Shift keys; use prove_repeated");
    match compact.repeated_key_source(&repeated) {
        Ok(ShiftKeySource::Repeated(keys, descriptor)) => {
            assert_eq!(*keys, "base keys");
            assert_eq!(descriptor.log_instances(), 2);
            assert_eq!(descriptor.binding_scalars(), repeated.binding_scalars());
        }
        _ => panic!("keys of the base circuit are due"),
    }

    let wrong_instances = RepeatedConstraintSystem::new(base_system(), b"base", 3);
    let e = compact.repeated_key_source(&wrong_instances).err().unwrap();
    assert_eq!(e, ProverError::RepeatedShapeMismatch);
    assert_eq!(e.msg(), "repeated descriptor does not match the flat constraint system shape");

    let wrong_base = RepeatedConstraintSystem::new(base_system(), b"another base", 2);
    let e = compact.repeated_key_source(&wrong_base).err().unwrap();
    assert_eq!(e, ProverError::RepeatedSetupMismatch);
    assert_eq!(e.msg(), "repeated descriptor differs from prover setup");
    assert_eq!(ProverError::WitnessTooLarge.arg(), "witness");
    assert_eq!(
        ProverError::WitnessTooLarge.msg(),
        "witness element count is incompatible with the constraint system"
    );
}

#[test]
fn a_repeated_proof_binds_its_descriptor_before_the_public_elements() {
    let mut rng = StdRng::seed_from_u64(6);
    let v = values(&mut rng, 16);
    let repeated = RepeatedConstraintSystem::new(base_system(), b"base", 2);
    let prover =
        IOPProver::new_repeated(flat_system(2), 2, 3, repeated.clone(), "base keys", 4).unwrap();
    let (mut run, keys) = prover.begin_repeated_proof(&repeated).unwrap();
    assert!(matches!(keys, ShiftKeySource::Repeated(&"base keys", _)));
    assert_eq!(run.next_action(), ProveAction::BindDescriptor);
    assert_eq!(run.binding_scalars, repeated.binding_scalars().to_vec());
    run.on_descriptor_bound(2, 3, &v).unwrap();
    assert_eq!(run.next_action(), ProveAction::ObservePublic);
    assert_eq!(run.public_elems, run.witness_packed[..2].to_vec());
    assert_eq!(run.witness_packed, pack_witness(3, &v).unwrap());

    let other = RepeatedConstraintSystem::new(base_system(), b"base", 3);
    let e = prover.begin_repeated_proof(&other).err().unwrap();
    assert_eq!(e, ProverError::RepeatedShapeMismatch);
    assert_eq!(e.arg(), "repeated");
    let other = RepeatedConstraintSystem::new(base_system(), b"another base", 2);
    let e = prover.begin_repeated_proof(&other).err().unwrap();
    assert_eq!(e, ProverError::RepeatedSetupMismatch);
    assert_eq!(e.arg(), "repeated");

    let (mut run, _) = prover.begin_repeated_proof(&repeated).unwrap();
    assert_eq!(run.on_descriptor_bound(2, 2, &v), Err(ProverError::WitnessTooLarge));
    assert_eq!(run.next_action(), ProveAction::BindDescriptor);
}

#[test]
fn a_flat_proof_begins_with_the_public_elements() {
    let mut rng = StdRng::seed_from_u64(7);
    let v = values(&mut rng, 16);
    let prover = IOPProver::new(flat_system(2), 2, 3, "flat keys");
    let (run, keys) = prover.begin_proof(&v).unwrap();
    assert!(matches!(keys, ShiftKeySource::Flat(&"flat keys")));
    assert_eq!(run.next_action(), ProveAction::ObservePublic);
    assert!(run.binding_scalars.is_empty());

    let small = IOPProver::new(flat_system(2), 2, 2, "flat keys");
    assert_eq!(small.begin_proof(&v).err(), Some(ProverError::WitnessTooLarge));
    let repeated = RepeatedConstraintSystem::new(base_system(), b"base", 2);
    let compact =
        IOPProver::new_repeated(flat_system(2), 2, 2, repeated, "base keys", 4).unwrap();
    assert_eq!(compact.begin_proof(&v).err(), Some(ProverError::RepeatedShiftKeys));
}

#[test]
fn fixed_zerocheck_challenges_come_before_sampled_ones() {
    assert_eq!(zerocheck_challenge_counts(10, 3), (3, 7));
    assert_eq!(zerocheck_challenge_counts(3, 3), (3, 0));
    assert_eq!(zerocheck_challenge_counts(2, 3), (2, 0));
    assert_eq!(zerocheck_challenge_counts(0, 3), (0, 0));
}

#[test]
fn a_proof_runs_through_its_stages() {
    let mut rng = StdRng::seed_from_u64(4);
    let v = values(&mut rng, 16);
    let mut run = ProveRun::start(2, 3, &v).unwrap();
    assert_eq!(run.next_action(), ProveAction::ObservePublic);
    assert_eq!(run.public_elems, run.witness_packed[..2].to_vec());
    run.on_public_observed();
    assert_eq!(run.next_action(), ProveAction::CommitWitness);
    run.on_witness_committed();
    assert_eq!(run.next_action(), ProveAction::ReduceIntMul);
    let columns: Vec<Vec<F>> = (0..4).map(|_| random_scalars(&mut rng, 64)).collect();
    let intmul_point = random_scalars(&mut rng, 2);
    run.on_intmul(IntMulOutput {
        eval_point: intmul_point.clone(),
        a_evals: columns[0].clone(),
        b_evals: columns[1].clone(),
        c_lo_evals: columns[2].clone(),
        c_hi_evals: columns[3].clone(),
    });
    assert_eq!(run.next_action(), ProveAction::ReduceBitAnd);
    let s = random_scalars(&mut rng, 4);
    let bitand_point = random_scalars(&mut rng, 2);
    let subspace = BinarySubspace::<F>::with_dim(6);
    run.on_bitand(
        AndCheckOutput {
            a_eval: s[0],
            b_eval: s[1],
            c_eval: s[2],
            z_challenge: s[3],
            eval_point: bitand_point.clone(),
        },
        &subspace,
    );
    assert_eq!(run.next_action(), ProveAction::ReduceShift);
    let bitand = run.bitand_claim.as_ref().unwrap();
    assert_eq!(bitand.evals, [s[0], s[1], s[2]]);
    assert_eq!((bitand.r_zhat_prime, bitand.r_x_prime.clone()), (s[3], bitand_point));
    let intmul = run.intmul_claim.as_ref().unwrap();
    let l = lagrange_evals_scalars(&subspace, s[3]);
    for k in 0..4 {
        assert_eq!(intmul.evals[k], inner_product(&columns[k], &l));
    }
    assert_eq!((intmul.r_zhat_prime, intmul.r_x_prime.clone()), (s[3], intmul_point));
    let eval_point = random_scalars(&mut rng, 10);
    run.on_shift(eval_point.clone());
    assert_eq!(run.next_action(), ProveAction::SwitchRings);
    let rs = random_scalars(&mut rng, 8);
    let sumcheck_claim = BinaryField128bGhash(rng.random());
    run.on_ring_switch(rs.clone(), sumcheck_claim);
    assert_eq!(run.next_action(), ProveAction::SampleBatchCoefficient);
    let coeff = BinaryField128bGhash(rng.random());
    run.on_batch_coefficient(coeff);
    assert_eq!(run.next_action(), ProveAction::ProveOracleRelation);
    let pubcheck = evaluate_scalars(&run.public_elems, &eval_point[7..8]);
    assert_eq!(run.batched_claim, sumcheck_claim.add(coeff.mul(pubcheck)));
    assert_eq!(
        run.batched_transparent,
        compute_batched_transparent(rs, &eval_point[7..8], coeff)
    );
    run.on_relation_proved();
    assert_eq!(run.next_action(), ProveAction::Finished);
    assert_eq!(B128::zero().add(coeff), coeff);
    assert!(ProveRun::start(2, 2, &v).is_err());
}
