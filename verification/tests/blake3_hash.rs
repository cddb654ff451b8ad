//! BLAKE3: completeness, soundness and isolation.
use binius64::blake2s;
use binius64::blake3::constants::{
    BLOCK_LEN, CHUNK_END, CHUNK_LEN, CHUNK_START, IV, MSG_PERMUTATION, ROOT, ROUNDS, SCHEDULES,
};
use binius64::blake3::{blake3_compress, reference, Blake3};
use binius64::circuit::{CircuitBuilder, PopulateError};
use rand::rngs::StdRng;
use rand::{Rng, RngCore, SeedableRng};

/// Builds a circuit, fills in the right digest, and reads it back.
fn circuit_with_message(message: &[u8]) -> [u8; 32] {
    let mut builder = CircuitBuilder::new();
    let hasher = Blake3::new_witness(&mut builder, message.len());
    let circuit = builder.build();

    let expected_digest = reference::blake3_hash(message);

    let mut witness = circuit.new_witness_filler();
    hasher.populate_message(&mut witness, message);
    hasher.populate_digest(&mut witness, &expected_digest);

    circuit
        .populate_wire_witness(&mut witness)
        .expect("circuit accepts a valid witness");

    core::array::from_fn(|i| {
        let word = witness.get(hasher.digest[i / 4]);
        ((word >> ((i % 4) * 8)) & 0xff) as u8
    })
}

/// Checks the reference and the circuit against the `blake3` crate.
fn validate_against_oracle(message: &[u8], test_name: &str) {
    let oracle_digest: [u8; 32] = blake3::hash(message).into();
    let reference_digest = reference::blake3_hash(message);
    assert_eq!(reference_digest, oracle_digest, "reference mismatch for {test_name}");

    let circuit_digest = circuit_with_message(message);
    assert_eq!(circuit_digest, oracle_digest, "circuit mismatch for {test_name}");
}

/// Builds a circuit and fills in the given digest.
fn try_circuit_with_digest(message: &[u8], digest: &[u8; 32]) -> Result<(), PopulateError> {
    let mut builder = CircuitBuilder::new();
    let hasher = Blake3::new_witness(&mut builder, message.len());
    let circuit = builder.build();

    let mut witness = circuit.new_witness_filler();
    hasher.populate_message(&mut witness, message);
    hasher.populate_digest(&mut witness, digest);
    circuit.populate_wire_witness(&mut witness)
}

fn boundary_length(len: usize, name: &str) {
    let mut rng = StdRng::seed_from_u64(len as u64);
    let mut message = vec![0u8; len];
    rng.fill_bytes(&mut message);
    validate_against_oracle(&message, name);
}

#[test]
fn verify_schedules_against_iterative_permute() {
    fn permute(m: &[usize; 16]) -> [usize; 16] {
        let mut out = [0; 16];
        for i in 0..16 {
            out[i] = m[MSG_PERMUTATION[i]];
        }
        out
    }

    let mut m: [usize; 16] = core::array::from_fn(|i| i);
    for r in 0..ROUNDS {
        assert_eq!(SCHEDULES[r], m, "schedule mismatch at round {r}");
        m = permute(&m);
    }
}

#[test]
fn verify_iv_matches_blake2s() {
    let blake2s_iv = blake2s::constants::IV;
    assert_eq!(IV, blake2s_iv);
}

#[test]
fn test_blake3_boundary_lengths_within_a_chunk() {
    boundary_length(0, "empty");
    boundary_length(1, "single_byte");
    boundary_length(63, "under_one_block");
    boundary_length(64, "exact_one_block");
    boundary_length(65, "over_one_block");
    boundary_length(127, "under_two_blocks");
    boundary_length(128, "exact_two_blocks");
    boundary_length(129, "over_two_blocks");
    boundary_length(1023, "under_one_chunk");
    boundary_length(1024, "exact_one_chunk");
}

#[test]
fn test_blake3_boundary_lengths_over_a_chunk() {
    boundary_length(1025, "over_one_chunk");
    boundary_length(2048, "exact_two_chunks");
    boundary_length(2049, "over_two_chunks");
    boundary_length(3072, "exact_three_chunks");
    boundary_length(4096, "exact_four_chunks");
    boundary_length(4097, "over_four_chunks");
    boundary_length(8192, "exact_eight_chunks");
}

#[test]
fn test_blake3_known_vectors() {
    validate_against_oracle(b"", "empty_literal");
    validate_against_oracle(b"abc", "abc");
    validate_against_oracle(b"a", "single_a");
    validate_against_oracle(b"The quick brown fox jumps over the lazy dog", "pangram");
}

#[test]
fn test_blake3_block_boundary_patterns() {
    validate_against_oracle(&[0x42u8; BLOCK_LEN - 1], "just_under_block");
    validate_against_oracle(&[0x42u8; BLOCK_LEN], "exact_block");
    validate_against_oracle(&[0x42u8; BLOCK_LEN + 1], "just_over_block");
    validate_against_oracle(&[0xAAu8; 2 * BLOCK_LEN], "two_blocks");
    validate_against_oracle(&vec![0xFFu8; CHUNK_LEN], "full_chunk");
}

#[test]
fn test_blake3_random_messages() {
    let mut rng = StdRng::seed_from_u64(42);

    for i in 0..100 {
        let size = rng.random_range(0..=1024);
        let mut message = vec![0u8; size];
        rng.fill(&mut message[..]);
        validate_against_oracle(&message, &format!("random_{i}_size_{size}"));
    }
}

#[test]
fn test_blake3_all_zeros() {
    for &len in &[0, 1, 64, 128, 1024, 2048, 4096] {
        validate_against_oracle(&vec![0u8; len], &format!("zeros_{len}"));
    }
}

#[test]
fn test_blake3_all_ones() {
    for &len in &[1, 64, 128, 1024, 2048, 4096] {
        validate_against_oracle(&vec![0xFFu8; len], &format!("ones_{len}"));
    }
}

#[test]
fn test_blake3_multi_chunk_non_power_of_two() {
    let mut rng = StdRng::seed_from_u64(77);
    for &len in &[3000, 5000, 6144, 7000] {
        let mut message = vec![0u8; len];
        rng.fill_bytes(&mut message);
        validate_against_oracle(&message, &format!("multi_chunk_{len}"));
    }
}

#[test]
fn test_blake3_random_multi_chunk_messages() {
    let mut rng = StdRng::seed_from_u64(99);

    for i in 0..20 {
        let size = rng.random_range(1025..=8192);
        let mut message = vec![0u8; size];
        rng.fill(&mut message[..]);
        validate_against_oracle(&message, &format!("random_multi_{i}_size_{size}"));
    }
}

#[test]
fn test_wrong_digest_rejected() {
    let message = b"hello blake3";
    let wrong_digest = [0u8; 32];
    assert!(
        try_circuit_with_digest(message, &wrong_digest).is_err(),
        "All-zero digest should be rejected"
    );
}

#[test]
fn test_single_bit_flip_rejected() {
    let message = b"test bit flip";
    let mut digest: [u8; 32] = blake3::hash(message).into();
    digest[0] ^= 1;
    assert!(
        try_circuit_with_digest(message, &digest).is_err(),
        "Single bit flip in digest should be rejected"
    );
}

#[test]
fn test_swapped_digest_words_rejected() {
    let message = b"test swapped words";
    let mut digest: [u8; 32] = blake3::hash(message).into();
    let (a, b) = digest.split_at_mut(4);
    let mut tmp = [0u8; 4];
    tmp.copy_from_slice(&a[..4]);
    a[..4].copy_from_slice(&b[..4]);
    b[..4].copy_from_slice(&tmp);
    assert!(
        try_circuit_with_digest(message, &digest).is_err(),
        "Swapped digest words should be rejected"
    );
}

#[test]
fn test_wrong_message_content_rejected() {
    let message_a = b"message A";
    let message_b = b"message B";
    let digest_b: [u8; 32] = blake3::hash(message_b.as_slice()).into();
    assert!(
        try_circuit_with_digest(message_a, &digest_b).is_err(),
        "Wrong message content should be rejected"
    );
}

#[test]
fn test_wrong_digest_rejected_multi_chunk() {
    let message = vec![0xABu8; 2048];
    let wrong_digest = [0u8; 32];
    assert!(
        try_circuit_with_digest(&message, &wrong_digest).is_err(),
        "All-zero digest should be rejected for multi-chunk"
    );
}

#[test]
fn test_single_bit_flip_rejected_multi_chunk() {
    let message = vec![0xCDu8; 2048];
    let mut digest: [u8; 32] = blake3::hash(&message).into();
    digest[0] ^= 1;
    assert!(
        try_circuit_with_digest(&message, &digest).is_err(),
        "Single bit flip should be rejected for multi-chunk"
    );
}

#[test]
fn test_reference_matches_oracle() {
    let mut rng = StdRng::seed_from_u64(123);
    for _ in 0..50 {
        let len = rng.random_range(0..=1024);
        let mut message = vec![0u8; len];
        rng.fill(&mut message[..]);

        let reference_digest = reference::blake3_hash(&message);
        let oracle_digest: [u8; 32] = blake3::hash(&message).into();
        assert_eq!(reference_digest, oracle_digest, "Reference/oracle mismatch at len={len}");
    }
}

#[test]
fn test_reference_matches_oracle_multi_chunk() {
    let mut rng = StdRng::seed_from_u64(456);
    for _ in 0..20 {
        let len = rng.random_range(1025..=8192);
        let mut message = vec![0u8; len];
        rng.fill(&mut message[..]);

        let reference_digest = reference::blake3_hash(&message);
        let oracle_digest: [u8; 32] = blake3::hash(&message).into();
        assert_eq!(reference_digest, oracle_digest, "Reference/oracle mismatch at len={len}");
    }
}

#[test]
fn test_compression_traced() {
    let cv = IV;
    let block_words = [0u32; 16];
    let trace = reference::compress_traced(&cv, &block_words, 0, 0, CHUNK_START | CHUNK_END | ROOT);

    let output = reference::compress(&cv, &block_words, 0, 0, CHUNK_START | CHUNK_END | ROOT);
    assert_eq!(trace.output, output);
    assert_eq!(trace.round_states.len(), ROUNDS);
}

#[test]
fn test_empty_message_flags() {
    let oracle_digest: [u8; 32] = blake3::hash(b"").into();
    let circuit_digest = circuit_with_message(b"");
    assert_eq!(circuit_digest, oracle_digest, "Empty message digest mismatch");
}

fn check_readback(message: &[u8]) {
    let mut builder = CircuitBuilder::new();
    let hasher = Blake3::new_witness(&mut builder, message.len());
    let circuit = builder.build();

    let expected_digest = reference::blake3_hash(message);

    let mut witness = circuit.new_witness_filler();
    hasher.populate_message(&mut witness, message);
    hasher.populate_digest(&mut witness, &expected_digest);

    circuit
        .populate_wire_witness(&mut witness)
        .expect("Should accept valid witness");

    for i in 0..8 {
        let wire_val = witness.get(hasher.digest[i]) as u32;
        let expected_word =
            u32::from_le_bytes(expected_digest[i * 4..(i + 1) * 4].try_into().unwrap());
        assert_eq!(wire_val, expected_word, "Digest word {i} mismatch");
    }
}

#[test]
fn test_wire_readback_matches_reference() {
    check_readback(b"wire readback test");
}

#[test]
fn test_wire_readback_multi_chunk() {
    let mut rng = StdRng::seed_from_u64(888);
    let mut message = vec![0u8; 2048];
    rng.fill_bytes(&mut message);
    check_readback(&message);
}

/// The compression circuit computes what the reference computes, on random inputs.
#[test]
fn test_blake3_compression_equivalence_randblast() {
    let mut rng = StdRng::seed_from_u64(42);
    let mut builder = CircuitBuilder::new();
    let zero = builder.add_constant_64(0);
    let cv: [_; 8] = core::array::from_fn(|_| builder.add_witness());
    let m: [_; 16] = core::array::from_fn(|_| builder.add_witness());
    let block_len = builder.add_witness();
    let flags = builder.add_witness();
    let out = blake3_compress(&mut builder, &cv, &m, zero, zero, block_len, flags);
    let circuit = builder.build();

    for _ in 0..100_000 {
        let cv_words: [u32; 8] = core::array::from_fn(|_| rng.random());
        let block: [u32; 16] = core::array::from_fn(|_| rng.random());
        let (len, fl): (u32, u32) = (rng.random(), rng.random());
        let mut witness = circuit.new_witness_filler();
        for i in 0..8 {
            witness.set(cv[i], cv_words[i] as u64);
        }
        for i in 0..16 {
            witness.set(m[i], block[i] as u64);
        }
        witness.set(block_len, len as u64);
        witness.set(flags, fl as u64);
        circuit.populate_wire_witness(&mut witness).expect("no assertion to fail");
        let expected = reference::compress(&cv_words, &block, 0, len, fl);
        for i in 0..16 {
            assert_eq!(witness.get(out[i]), expected[i] as u64);
        }
    }
}
