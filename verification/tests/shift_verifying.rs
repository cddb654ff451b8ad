//! The shift selectors, the matrix polynomials and repeated constraint systems.
use binius64::constraint_system::{
    verify_constraints, AndConstraint, ConstraintSystem, MulConstraint, Operand, ShiftVariant,
    ShiftedValueIndex, ValueIndex, ValueVec, ValueVecLayout, VerifyError, Word,
};
use binius64::field::{BinaryField, BinaryField128bGhash, B128};
use binius64::math::lagrange::lagrange_evals_scalars;
use binius64::math::subspace::BinarySubspace;
use binius64::verify::h_op::evaluate_h_op;
use binius64::verify::monster::{
    evaluate_monster_multilinear_for_operation, OperatorData, BITAND_ARITY, INTMUL_ARITY,
};
use binius64::verify::repeated::{
    digest_to_b128s, RepeatedConstraintSystem, RepeatedPublicBinding, RepeatedValueLayout,
};
use binius64::verify::repeated_monster::{
    evaluate_repeated_monster_multilinear_for_operation, RepeatedMonsterLayout,
};
use rand::rngs::StdRng;
use rand::{Rng, SeedableRng};
use sha2::{Digest, Sha256};

type F = BinaryField128bGhash;

const LOG_WORD_SIZE_BITS: usize = 6;
const WORD_SIZE_BITS: usize = 64;
const SHIFT_VARIANT_COUNT: usize = 8;

fn random_scalar(rng: &mut StdRng) -> F {
    BinaryField128bGhash(rng.random())
}

fn random_scalars(rng: &mut StdRng, n: usize) -> Vec<F> {
    (0..n).map(|_| random_scalar(rng)).collect()
}

fn shifted(value_index: ValueIndex, shift_variant: ShiftVariant, amount: usize) -> ShiftedValueIndex {
    ShiftedValueIndex { value_index, shift_variant, amount }
}

fn test_term(value_index: usize, seed: usize) -> ShiftedValueIndex {
    let value_index = ValueIndex(value_index as u32);
    let amount = (seed * 7 + 3) % WORD_SIZE_BITS;
    match seed % SHIFT_VARIANT_COUNT {
        0 => ShiftedValueIndex::plain(value_index),
        1 => shifted(value_index, ShiftVariant::Sll, amount),
        2 => shifted(value_index, ShiftVariant::Slr, amount),
        3 => shifted(value_index, ShiftVariant::Sar, amount),
        4 => shifted(value_index, ShiftVariant::Rotr, amount),
        5 => shifted(value_index, ShiftVariant::Sll32, amount % 32),
        6 => shifted(value_index, ShiftVariant::Srl32, amount % 32),
        _ => shifted(value_index, ShiftVariant::Sra32, amount % 32),
    }
}

fn offset_operand(operand: &Operand, offset: usize) -> Operand {
    operand
        .iter()
        .map(|term| {
            shifted(
                ValueIndex(term.value_index.0 + offset as u32),
                term.shift_variant,
                term.amount,
            )
        })
        .collect()
}

fn make_base_and_constraints(
    base_constraint_count: usize,
    base_value_count: usize,
) -> Vec<AndConstraint> {
    (0..base_constraint_count)
        .map(|row| AndConstraint {
            a: vec![
                test_term((row * 3 + 1) % base_value_count, row),
                test_term((row * 5 + 7) % base_value_count, row + 1),
            ],
            b: vec![
                test_term((row * 11 + 13) % base_value_count, row + 2),
                test_term((row * 17 + 19) % base_value_count, row + 3),
            ],
            c: vec![
                test_term((row * 23 + 29) % base_value_count, row + 4),
                test_term((row * 31 + 37) % base_value_count, row + 5),
            ],
        })
        .collect()
}

fn repeat_and_constraints(
    base_constraints: &[AndConstraint],
    log_instances: usize,
    base_value_count: usize,
) -> Vec<AndConstraint> {
    let mut constraints = Vec::new();
    for instance in 0..1 << log_instances {
        let value_offset = instance * base_value_count;
        for constraint in base_constraints {
            constraints.push(AndConstraint {
                a: offset_operand(&constraint.a, value_offset),
                b: offset_operand(&constraint.b, value_offset),
                c: offset_operand(&constraint.c, value_offset),
            });
        }
    }
    constraints
}

fn make_base_mul_constraints(
    base_constraint_count: usize,
    base_value_count: usize,
) -> Vec<MulConstraint> {
    (0..base_constraint_count)
        .map(|row| MulConstraint {
            a: vec![
                test_term((row * 3 + 2) % base_value_count, row),
                test_term((row * 5 + 11) % base_value_count, row + 1),
            ],
            b: vec![
                test_term((row * 7 + 17) % base_value_count, row + 2),
                test_term((row * 13 + 23) % base_value_count, row + 3),
            ],
            lo: vec![
                test_term((row * 19 + 31) % base_value_count, row + 4),
                test_term((row * 29 + 41) % base_value_count, row + 5),
            ],
            hi: vec![
                test_term((row * 37 + 43) % base_value_count, row + 6),
                test_term((row * 47 + 53) % base_value_count, row + 7),
            ],
        })
        .collect()
}

fn repeat_mul_constraints(
    base_constraints: &[MulConstraint],
    log_instances: usize,
    base_value_count: usize,
) -> Vec<MulConstraint> {
    let mut constraints = Vec::new();
    for instance in 0..1 << log_instances {
        let value_offset = instance * base_value_count;
        for constraint in base_constraints {
            constraints.push(MulConstraint {
                a: offset_operand(&constraint.a, value_offset),
                b: offset_operand(&constraint.b, value_offset),
                lo: offset_operand(&constraint.lo, value_offset),
                hi: offset_operand(&constraint.hi, value_offset),
            });
        }
    }
    constraints
}

fn and_operands(constraints: &[AndConstraint]) -> [Vec<&Operand>; 3] {
    [
        constraints.iter().map(|c| &c.a).collect(),
        constraints.iter().map(|c| &c.b).collect(),
        constraints.iter().map(|c| &c.c).collect(),
    ]
}

fn mul_operands(constraints: &[MulConstraint]) -> [Vec<&Operand>; 4] {
    [
        constraints.iter().map(|c| &c.a).collect(),
        constraints.iter().map(|c| &c.b).collect(),
        constraints.iter().map(|c| &c.lo).collect(),
        constraints.iter().map(|c| &c.hi).collect(),
    ]
}

#[test]
fn repeated_monster_eval_matches_flat_large_and_materialization() {
    let mut rng = StdRng::seed_from_u64(1);
    let base_constraint_count: usize = 1 << 8;
    let base_value_count: usize = 1 << 9;
    let log_instances = 8;

    let base_constraints = make_base_and_constraints(base_constraint_count, base_value_count);
    let flat_constraints =
        repeat_and_constraints(&base_constraints, log_instances, base_value_count);
    assert_eq!(flat_constraints.len(), 1 << 16);

    let operator_data: OperatorData<F, BITAND_ARITY> = OperatorData {
        r_zhat_prime: random_scalar(&mut rng),
        r_x_prime: random_scalars(
            &mut rng,
            base_constraint_count.ilog2() as usize + log_instances,
        ),
        evals: core::array::from_fn(|_| random_scalar(&mut rng)),
    };
    let subspace = BinarySubspace::<F>::with_dim(LOG_WORD_SIZE_BITS);
    let lambda = random_scalar(&mut rng);
    let r_j = random_scalars(&mut rng, LOG_WORD_SIZE_BITS);
    let r_s = random_scalars(&mut rng, LOG_WORD_SIZE_BITS);
    let r_y = random_scalars(&mut rng, base_value_count.ilog2() as usize + log_instances);

    let flat = evaluate_monster_multilinear_for_operation(
        &and_operands(&flat_constraints),
        &operator_data,
        &subspace,
        lambda,
        &r_j,
        &r_s,
        &r_y,
    );
    let repeated = evaluate_repeated_monster_multilinear_for_operation(
        &and_operands(&base_constraints),
        &operator_data,
        &subspace,
        lambda,
        &r_j,
        &r_s,
        &r_y,
        RepeatedMonsterLayout::new(log_instances, base_constraint_count, base_value_count),
    );

    assert_eq!(repeated, flat);
}

#[test]
fn repeated_monster_eval_matches_flat_mul_materialization() {
    let mut rng = StdRng::seed_from_u64(2);
    let base_constraint_count: usize = 1 << 7;
    let base_value_count: usize = 1 << 8;
    let log_instances = 7;

    let base_constraints = make_base_mul_constraints(base_constraint_count, base_value_count);
    let flat_constraints =
        repeat_mul_constraints(&base_constraints, log_instances, base_value_count);
    assert_eq!(flat_constraints.len(), 1 << 14);

    let operator_data: OperatorData<F, INTMUL_ARITY> = OperatorData {
        r_zhat_prime: random_scalar(&mut rng),
        r_x_prime: random_scalars(
            &mut rng,
            base_constraint_count.ilog2() as usize + log_instances,
        ),
        evals: core::array::from_fn(|_| random_scalar(&mut rng)),
    };
    let subspace = BinarySubspace::<F>::with_dim(LOG_WORD_SIZE_BITS);
    let lambda = random_scalar(&mut rng);
    let r_j = random_scalars(&mut rng, LOG_WORD_SIZE_BITS);
    let r_s = random_scalars(&mut rng, LOG_WORD_SIZE_BITS);
    let r_y = random_scalars(&mut rng, base_value_count.ilog2() as usize + log_instances);

    let flat = evaluate_monster_multilinear_for_operation(
        &mul_operands(&flat_constraints),
        &operator_data,
        &subspace,
        lambda,
        &r_j,
        &r_s,
        &r_y,
    );
    let repeated = evaluate_repeated_monster_multilinear_for_operation(
        &mul_operands(&base_constraints),
        &operator_data,
        &subspace,
        lambda,
        &r_j,
        &r_s,
        &r_y,
        RepeatedMonsterLayout::new(log_instances, base_constraint_count, base_value_count),
    );

    assert_eq!(repeated, flat);
}

fn hypercube_point(n: usize, index: usize) -> Vec<F> {
    (0..n).map(|i| BinaryField128bGhash(((index >> i) & 1) as u128)).collect()
}

fn to_field(b: bool) -> F {
    if b {
        B128::one()
    } else {
        B128::zero()
    }
}

#[test]
fn test_evaluate_h_op_hypercube_vertices() {
    let mut rng = StdRng::seed_from_u64(0);
    let subspace = BinarySubspace::<F>::with_dim(LOG_WORD_SIZE_BITS);
    let lagrange: Vec<Vec<F>> =
        (0..64).map(|i| lagrange_evals_scalars(&subspace, subspace.get(i))).collect();

    for _trial in 0..1024 {
        let i: usize = rng.random_range(0..64);
        let j: usize = rng.random_range(0..64);
        let s: usize = rng.random_range(0..64);

        let r_j = hypercube_point(LOG_WORD_SIZE_BITS, j);
        let r_s = hypercube_point(LOG_WORD_SIZE_BITS, s);

        let [sll, srl, sra, rotr, sll32, srl32, sra32, rotr32] =
            evaluate_h_op(&lagrange[i], &r_j, &r_s);

        let expected_sll = j + s == i;
        let expected_srl = i + s == j;
        let expected_sra = (i + s).min(63) == j;
        let expected_rotr = (i + s) % 64 == j;

        let i_hi = i / 32;
        let i_lo = i % 32;
        let j_hi = j / 32;
        let j_lo = j % 32;
        let s_lo = s % 32;

        let expected_sll32 = i_hi == j_hi && j_lo + s_lo == i_lo;
        let expected_srl32 = i_hi == j_hi && i_lo + s_lo == j_lo;
        let expected_sra32 = i_hi == j_hi && (i_lo + s_lo).min(31) == j_lo;
        let expected_rotr32 = i_hi == j_hi && (i_lo + s_lo) % 32 == j_lo;

        assert_eq!(sll, to_field(expected_sll), "sll failed for i={i}, j={j}, s={s}");
        assert_eq!(srl, to_field(expected_srl), "srl failed for i={i}, j={j}, s={s}");
        assert_eq!(sra, to_field(expected_sra), "sra failed for i={i}, j={j}, s={s}");
        assert_eq!(rotr, to_field(expected_rotr), "rotr failed for i={i}, j={j}, s={s}");
        assert_eq!(sll32, to_field(expected_sll32), "sll32 failed for i={i}, j={j}, s={s}");
        assert_eq!(srl32, to_field(expected_srl32), "srl32 failed for i={i}, j={j}, s={s}");
        assert_eq!(sra32, to_field(expected_sra32), "sra32 failed for i={i}, j={j}, s={s}");
        assert_eq!(rotr32, to_field(expected_rotr32), "rotr32 failed for i={i}, j={j}, s={s}");
    }
}

#[test]
fn test_evaluate_h_op_multilinearity() {
    let mut rng = StdRng::seed_from_u64(0);

    let challenge = random_scalar(&mut rng);
    let subspace = BinarySubspace::<F>::with_dim(LOG_WORD_SIZE_BITS);
    let l_tilde = lagrange_evals_scalars(&subspace, challenge);
    let r_j = random_scalars(&mut rng, LOG_WORD_SIZE_BITS);
    let r_s = random_scalars(&mut rng, LOG_WORD_SIZE_BITS);

    for i in 0..LOG_WORD_SIZE_BITS {
        let mut r_j_at_0 = r_j.clone();
        r_j_at_0[i] = B128::zero();
        let mut r_j_at_1 = r_j.clone();
        r_j_at_1[i] = B128::one();
        let [result_0, result_1, result_y] = [&r_j_at_0, &r_j_at_1, &r_j]
            .map(|r_j_variant| evaluate_h_op(&l_tilde, r_j_variant, &r_s));
        for variant in 0..SHIFT_VARIANT_COUNT {
            let expected = result_0[variant]
                .mul(B128::one().add(r_j[i]))
                .add(result_1[variant].mul(r_j[i]));
            assert_eq!(result_y[variant], expected, "Not linear in r_j[{i}]");
        }

        let mut r_s_at_0 = r_s.clone();
        r_s_at_0[i] = B128::zero();
        let mut r_s_at_1 = r_s.clone();
        r_s_at_1[i] = B128::one();
        let [result_0, result_1, result_y] = [&r_s_at_0, &r_s_at_1, &r_s]
            .map(|r_s_variant| evaluate_h_op(&l_tilde, &r_j, r_s_variant));
        for variant in 0..SHIFT_VARIANT_COUNT {
            let expected = result_0[variant]
                .mul(B128::one().add(r_s[i]))
                .add(result_1[variant].mul(r_s[i]));
            assert_eq!(result_y[variant], expected, "Not linear in r_s[{i}]");
        }
    }
}

fn layout(values: usize) -> ValueVecLayout {
    ValueVecLayout {
        n_const: 0,
        n_inout: 2,
        n_witness: values - 2,
        n_internal: 0,
        offset_inout: 0,
        offset_witness: 2,
        committed_total_len: values,
        n_scratch: 0,
    }
}

/// `v2 = v0 & v1`, twice, and a product.
fn base_system() -> ConstraintSystem {
    let plain = |i: u32| vec![ShiftedValueIndex::plain(ValueIndex(i))];
    ConstraintSystem {
        value_vec_layout: layout(8),
        constants: Vec::new(),
        and_constraints: vec![
            AndConstraint { a: plain(0), b: plain(1), c: plain(2) },
            AndConstraint {
                a: vec![
                    ShiftedValueIndex::plain(ValueIndex(0)),
                    shifted(ValueIndex(1), ShiftVariant::Rotr, 3),
                ],
                b: plain(1),
                c: plain(3),
            },
        ],
        mul_constraints: vec![MulConstraint {
            a: plain(0),
            b: plain(1),
            lo: plain(4),
            hi: plain(5),
        }],
    }
}

fn flat_system(base: &ConstraintSystem, log_instances: usize) -> ConstraintSystem {
    let values = base.value_vec_layout.committed_total_len;
    ConstraintSystem {
        value_vec_layout: layout(values << log_instances),
        constants: Vec::new(),
        and_constraints: repeat_and_constraints(&base.and_constraints, log_instances, values),
        mul_constraints: repeat_mul_constraints(&base.mul_constraints, log_instances, values),
    }
}

fn instance_words(a: u64, b: u64) -> Vec<Word> {
    let product = (a as u128) * (b as u128);
    vec![
        Word(a),
        Word(b),
        Word(a & b),
        Word((a ^ b.rotate_right(3)) & b),
        Word(product as u64),
        Word((product >> 64) as u64),
        Word(0),
        Word(0),
    ]
}

/// The flat system holds exactly where the base system holds of every copy.
#[test]
fn flat_copies_hold_where_every_copy_holds() {
    let base = base_system();
    let repeated = RepeatedConstraintSystem::new(base.clone(), b"base", 2);
    let flat = flat_system(&base, 2);
    assert!(repeated.matches_flat_shape(&flat));
    assert!(repeated.matches_flat_constraint_system(&flat));
    let mut rng = StdRng::seed_from_u64(5);
    let mut data = Vec::new();
    for _ in 0..4 {
        data.extend(instance_words(rng.random(), rng.random()));
    }
    let values = ValueVec { layout: flat.value_vec_layout.clone(), data };
    assert_eq!(verify_constraints(&flat, &values), Ok(()));
    let mut broken = values.clone();
    broken.data[8 + 2].0 ^= 1;
    assert_eq!(verify_constraints(&flat, &broken), Err(VerifyError::And(2)));
    let mut broken = values.clone();
    broken.data[16 + 5].0 ^= 1;
    assert_eq!(verify_constraints(&flat, &broken), Err(VerifyError::Mul(2)));
}

#[test]
fn flat_systems_that_are_not_copies_are_told_apart() {
    let base = base_system();
    let repeated = RepeatedConstraintSystem::new(base.clone(), b"base", 2);
    let mut same_shape = flat_system(&base, 2);
    same_shape.and_constraints[3].a.swap(0, 1);
    assert!(repeated.matches_flat_shape(&same_shape));
    assert!(!repeated.matches_flat_constraint_system(&same_shape));
    let mut other_offset = flat_system(&base, 2);
    other_offset.mul_constraints[1].a[0].value_index.0 += 1;
    assert!(!repeated.matches_flat_constraint_system(&other_offset));
    let mut other_shift = flat_system(&base, 2);
    other_shift.and_constraints[1].a[1].amount = 4;
    assert!(!repeated.matches_flat_constraint_system(&other_shift));
    let other_size = flat_system(&base, 1);
    assert!(!repeated.matches_flat_shape(&other_size));
    assert!(!repeated.matches_flat_constraint_system(&other_size));
}

#[test]
fn descriptor_binds_its_parts() {
    let base = base_system();
    let bytes = b"serialized base system";
    let repeated = RepeatedConstraintSystem::with_modes(
        base.clone(),
        bytes,
        5,
        RepeatedValueLayout::InstanceMajor,
        RepeatedPublicBinding::FlatPublicInputs,
    );
    assert_eq!(repeated.log_instances(), 5);
    assert_eq!(repeated.value_layout(), RepeatedValueLayout::InstanceMajor);
    assert_eq!(repeated.public_binding(), RepeatedPublicBinding::FlatPublicInputs);
    assert_eq!(repeated.base().and_constraints.len(), 2);

    let digest: [u8; 32] = Sha256::digest(bytes).into();
    assert_eq!(repeated.base_circuit_digest(), digest);

    let lo = u128::from_le_bytes(digest[..16].try_into().unwrap());
    let hi = u128::from_le_bytes(digest[16..].try_into().unwrap());
    assert_eq!(
        digest_to_b128s(digest),
        [BinaryField128bGhash(lo), BinaryField128bGhash(hi)]
    );
    let expected: [u128; 8] = [1, 5, 0, 0, 8, 2 | (1 << 64), lo, hi];
    assert_eq!(repeated.binding_scalars(), expected.map(BinaryField128bGhash));

    let other = RepeatedConstraintSystem::new(base, b"another base system", 5);
    assert_ne!(other.binding_scalars(), repeated.binding_scalars());
}
