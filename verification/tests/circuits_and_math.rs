//! Gates, hash circuits, interpolation and multilinear evaluation.
use binius64::circuit::{CircuitBuilder, PopulateError, Wire};
use binius64::field::{BinaryField, BinaryField128bGhash, B128};
use binius64::keccak::permutation::keccak_f1600;
use binius64::keccak::shake::shake256;
use binius64::keccak_prove::trace::permutation;
use binius64::math::lagrange::{extrapolate_over_subspace, lagrange_evals_scalars};
use binius64::math::multilinear::{eq_ind, eq_ind_partial_eval_scalars, evaluate_scalars};
use binius64::math::subspace::BinarySubspace;
use rand::rngs::StdRng;
use rand::{Rng, RngCore, SeedableRng};
use sha3::digest::{ExtendableOutput, Update, XofReader};
use sha3::Shake256;

type F = BinaryField128bGhash;

fn random_scalars(rng: &mut StdRng, n: usize) -> Vec<F> {
    (0..n).map(|_| BinaryField128bGhash(rng.random())).collect()
}

#[test]
fn gates_compute_their_words() {
    let mut rng = StdRng::seed_from_u64(1);
    let mut b = CircuitBuilder::new();
    let (x, y, c) = (b.add_witness(), b.add_inout(), b.add_witness());
    let k = b.add_constant_64(0x55);
    let outs: Vec<Wire> = vec![
        b.bnot(x),
        b.shl(x, 7),
        b.shr(x, 9),
        b.rotl(x, 11),
        b.rotr_32(x, 5),
        b.extract_byte(x, 3),
        b.band(x, y),
        b.bor(x, y),
        b.bxor(x, y),
        b.icmp_ult(x, y),
        b.icmp_ule(x, y),
        b.icmp_ugt(x, y),
        b.icmp_eq(x, y),
        b.icmp_ne(x, y),
        b.select(c, x, y),
        b.iadd_32(x, y),
    ];
    let (sum, carry) = b.iadd(x, y);
    let (diff, borrow) = b.isub_bin_bout(x, y, c);
    let circuit = b.build();
    let m = |v: bool| if v { u64::MAX } else { 0 };
    for round in 0..50 {
        let xv: u64 = rng.random();
        let yv: u64 = if round % 5 == 0 { xv } else { rng.random() };
        let cv: u64 = if round % 2 == 0 { u64::MAX } else { 0 };
        let mut w = circuit.new_witness_filler();
        w.set(x, xv);
        w.set(y, yv);
        w.set(c, cv);
        circuit.populate_wire_witness(&mut w).unwrap();
        let expected: Vec<u64> = vec![
            !xv,
            xv << 7,
            xv >> 9,
            xv.rotate_left(11),
            (xv as u32).rotate_right(5) as u64,
            (xv >> 24) & 0xff,
            xv & yv,
            xv | yv,
            xv ^ yv,
            m(xv < yv),
            m(xv <= yv),
            m(xv > yv),
            m(xv == yv),
            m(xv != yv),
            if cv != 0 { xv } else { yv },
            (xv as u32).wrapping_add(yv as u32) as u64,
        ];
        for (o, e) in outs.iter().zip(expected) {
            assert_eq!(w.get(*o), e);
        }
        assert_eq!(w.get(k), 0x55);
        assert_eq!(w.get(sum), xv.wrapping_add(yv));
        assert_eq!(w.get(carry) >> 63, xv.checked_add(yv).is_none() as u64);
        let bin = (cv >> 63) as i128;
        let exact = xv as i128 - yv as i128 - bin;
        assert_eq!(w.get(diff), exact as u64);
        assert_eq!(w.get(borrow) >> 63, (exact < 0) as u64);
    }
}

#[test]
fn the_first_failing_assertion_is_reported() {
    let mut b = CircuitBuilder::new();
    let (x, y) = (b.add_witness(), b.add_witness());
    b.assert_eq(x, x);
    b.assert_eq(x, y);
    b.assert_true(y);
    let circuit = b.build();
    let run = |xv: u64, yv: u64| {
        let mut w = circuit.new_witness_filler();
        w.set(x, xv);
        w.set(y, yv);
        circuit.populate_wire_witness(&mut w)
    };
    assert_eq!(run(u64::MAX, u64::MAX), Ok(()));
    assert_eq!(run(1, 2), Err(PopulateError { assertion: 1 }));
    assert_eq!(run(1, 1), Err(PopulateError { assertion: 2 }));
}

#[test]
fn keccak_circuit_is_the_permutation() {
    let mut rng = StdRng::seed_from_u64(2);
    let mut b = CircuitBuilder::new();
    let input: Vec<Wire> = (0..25).map(|_| b.add_witness()).collect();
    let output = keccak_f1600(&mut b, &input);
    let circuit = b.build();
    let state: [u64; 25] = core::array::from_fn(|_| rng.random());
    let mut w = circuit.new_witness_filler();
    for i in 0..25 {
        w.set(input[i], state[i]);
    }
    circuit.populate_wire_witness(&mut w).unwrap();
    let expected = permutation(state);
    for i in 0..25 {
        assert_eq!(w.get(output[i]), expected[i]);
    }
}

/// Messages that end inside, just before and at the end of a block.
#[test]
fn shake_circuit_matches_the_hash() {
    let mut rng = StdRng::seed_from_u64(3);
    for words in [0usize, 1, 15, 16, 17, 18, 33, 34, 35] {
        let mut message = vec![0u8; 8 * words];
        rng.fill_bytes(&mut message);
        let mut expected = [0u8; 136];
        let mut hasher = Shake256::default();
        hasher.update(&message);
        hasher.finalize_xof().read(&mut expected);

        let mut b = CircuitBuilder::new();
        let input: Vec<Wire> = (0..words).map(|_| b.add_witness()).collect();
        let output = shake256(&mut b, &input, 17);
        let circuit = b.build();
        let mut w = circuit.new_witness_filler();
        for i in 0..words {
            let word = u64::from_le_bytes(message[8 * i..8 * i + 8].try_into().unwrap());
            w.set(input[i], word);
        }
        circuit.populate_wire_witness(&mut w).unwrap();
        for i in 0..17 {
            let word = u64::from_le_bytes(expected[8 * i..8 * i + 8].try_into().unwrap());
            assert_eq!(w.get(output[i]), word, "{words} words, output word {i}");
        }
    }
}

/// The points of a canonical subspace are the words below a power of two.
#[test]
fn canonical_subspaces_count_up() {
    let s = BinarySubspace::<F>::with_dim(7);
    assert_eq!(s.dim(), 7);
    for (i, p) in s.points().into_iter().enumerate() {
        assert_eq!(p, BinaryField128bGhash(i as u128));
        assert_eq!(s.get(i), p);
    }
    assert_eq!(s.reduce_dim(3).points().len(), 8);
}

/// Lagrange polynomials are one at their own point and zero at the others.
#[test]
fn lagrange_polynomials_select_their_points() {
    let s = BinarySubspace::<F>::with_dim(4);
    for i in 0..16 {
        let l = lagrange_evals_scalars(&s, s.get(i));
        for (j, v) in l.into_iter().enumerate() {
            assert_eq!(v, if i == j { B128::one() } else { B128::zero() });
        }
    }
}

/// A polynomial of low degree is recovered from its values.
#[test]
fn interpolation_recovers_polynomials() {
    let mut rng = StdRng::seed_from_u64(4);
    let s = BinarySubspace::<F>::with_dim(4);
    let coeffs = random_scalars(&mut rng, 16);
    let eval = |z: F| coeffs.iter().rev().fold(B128::zero(), |acc, &c| acc.mul(z).add(c));
    let values: Vec<F> = s.points().into_iter().map(eval).collect();
    for _ in 0..5 {
        let z = BinaryField128bGhash(rng.random());
        assert_eq!(extrapolate_over_subspace(&s, &values, z), eval(z));
    }
}

#[test]
fn multilinear_extensions_agree_on_vertices() {
    let mut rng = StdRng::seed_from_u64(5);
    let values = random_scalars(&mut rng, 8);
    for i in 0..8usize {
        let point: Vec<F> = (0..3).map(|k| BinaryField128bGhash(((i >> k) & 1) as u128)).collect();
        assert_eq!(evaluate_scalars(&values, &point), values[i]);
        let eq = eq_ind_partial_eval_scalars(&point);
        for (j, v) in eq.into_iter().enumerate() {
            assert_eq!(v, if i == j { B128::one() } else { B128::zero() });
        }
    }
    let (a, b) = (random_scalars(&mut rng, 3), random_scalars(&mut rng, 3));
    let direct = evaluate_scalars(&eq_ind_partial_eval_scalars(&a), &b);
    assert_eq!(eq_ind(&a, &b), direct);
}
