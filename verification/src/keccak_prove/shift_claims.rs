//! Constraint-system schemas that hand the Keccak chi and theta-correction claims to the shift
//! reduction.
use super::bit_ntt::{lemma_chi_operand_lanes, CHI_OPERAND_LANES};
use super::layout;
use super::layout::slot;
use super::shift_operands::{
    block_state, d_correctness_operand_at, d_correctness_terms, lemma_d_correctness,
    lemma_rho_pi_preimage, lemma_rotl_term, lemma_virtual_b, plain_term_of, rotl_term,
    virtual_b_operand_at, virtual_b_terms,
};
use super::trace::{pre_chi_of, rho_pi_source, right_of, theta_of, theta_word, PermutationTrace};
use super::witness::{block_word, committed_words, lemma_committed_slot, CommittedKeccakWitness};
use crate::constraint_system::{
    and_holds, and_ok, ceil_pow2, is_empty_and, is_padded_mul, lemma_ceil_pow2, next_power_of_two,
    operand_ok, operand_value, AndConstraint, ConstraintSystem, MulConstraint, ValueVec,
    ValueVecLayout, Word,
};
use vstd::prelude::*;

verus! {

/// Number of public words kept before the committed Keccak witness segment. Both are zero
/// constants.
pub const SHIFT_PUBLIC_WORDS: usize = 2;

/// The value-vector base offset of the committed Keccak `A`/`D` witness.
pub fn committed_witness_base() -> (r: usize)
    ensures
        r == 2,
{
    SHIFT_PUBLIC_WORDS
}

/// Number of active chi constraints for `n_permutations` traces.
pub fn chi_row_count(n_permutations: usize) -> (r: usize)
    requires
        600 * n_permutations <= usize::MAX,
    ensures
        r == 600 * n_permutations,
{
    n_permutations * 24 * 25
}

/// Number of active `D` correctness constraints for `n_permutations` traces.
pub fn d_correctness_row_count(n_permutations: usize) -> (r: usize)
    requires
        120 * n_permutations <= usize::MAX,
    ensures
        r == 120 * n_permutations,
{
    n_permutations * 24 * layout::D_WORDS_PER_BLOCK
}

/// The layout of a value vector with `base` public words, `n_const` of them constants, and the
/// committed witness of `n` permutations.
pub open spec fn layout_of(base: nat, n_const: nat, n: nat) -> ValueVecLayout {
    ValueVecLayout {
        n_const: n_const as usize,
        n_inout: 0,
        n_witness: (800 * n) as usize,
        n_internal: (ceil_pow2(base + 800 * n) - base - 800 * n) as usize,
        offset_inout: base as usize,
        offset_witness: base as usize,
        committed_total_len: ceil_pow2(base + 800 * n) as usize,
        n_scratch: 0,
    }
}

/// Value-vector layout used by the Keccak shift schemas.
pub fn value_vec_layout(n_permutations: usize) -> (r: ValueVecLayout)
    requires
        2 + 800 * n_permutations <= usize::MAX / 2,
    ensures
        r == layout_of(2, 2, n_permutations as nat),
        r.committed_total_len == ceil_pow2((2 + 800 * n_permutations) as nat),
{
    let witness_len: usize = layout::witness_len(n_permutations);
    let committed_total_len: usize = next_power_of_two(committed_witness_base() + witness_len);
    let n_internal: usize = committed_total_len - committed_witness_base() - witness_len;
    ValueVecLayout {
        n_const: SHIFT_PUBLIC_WORDS,
        n_inout: 0,
        n_witness: witness_len,
        n_internal,
        offset_inout: SHIFT_PUBLIC_WORDS,
        offset_witness: committed_witness_base(),
        committed_total_len,
        n_scratch: 0,
    }
}

/// Public words, then the committed words, then zeros up to length `total`.
pub open spec fn padded_words(public: Seq<Word>, committed: Seq<Word>, total: nat) -> Seq<Word> {
    Seq::new(
        total,
        |i: int|
            if i < public.len() {
                public[i]
            } else if i < public.len() + committed.len() {
                committed[i - public.len()]
            } else {
                Word(0)
            },
    )
}

/// Lays out public words and committed words in a vector of length `total`.
pub fn lay_out_words(public: &[Word], committed: &[Word], total: usize) -> (r: Vec<Word>)
    requires
        public@.len() + committed@.len() <= total,
    ensures
        r@ == padded_words(public@, committed@, total as nat),
{
    let np: usize = public.len();
    let nc: usize = committed.len();
    let mut words: Vec<Word> = Vec::new();
    for i in 0..total
        invariant
            np == public@.len(),
            nc == committed@.len(),
            np + nc <= total,
            words@.len() == i,
            forall|k: int|
                0 <= k < i ==> #[trigger] words@[k] == padded_words(
                    public@,
                    committed@,
                    total as nat,
                )[k],
    {
        let word: Word = if i < np {
            public[i]
        } else if i < np + nc {
            committed[i - np]
        } else {
            Word(0)
        };
        words.push(word);
    }
    assert(words@ =~= padded_words(public@, committed@, total as nat));
    words
}

/// The public words of the shift schemas.
pub open spec fn shift_public() -> Seq<Word> {
    seq![Word(0), Word(0)]
}

/// A power-of-two value vector of public zeros and the committed Keccak witness after them.
pub fn shift_witness_words(witness: &CommittedKeccakWitness) -> (r: Vec<Word>)
    requires
        witness.wf(),
        2 + 800 * witness.n_permutations <= usize::MAX / 2,
    ensures
        r@ == padded_words(
            shift_public(),
            witness.words@,
            ceil_pow2((2 + 800 * witness.n_permutations) as nat),
        ),
{
    let layout = value_vec_layout(witness.n_permutations());
    let public: [Word; 2] = [Word(0), Word(0)];
    assert(public@ =~= shift_public());
    proof {
        lemma_ceil_pow2((2 + 800 * witness.n_permutations) as nat);
    }
    lay_out_words(public.as_slice(), witness.words(), layout.committed_total_len)
}

/// A value vector of the shifted Keccak witness.
pub fn shift_value_vec(witness: &CommittedKeccakWitness) -> (r: ValueVec)
    requires
        witness.wf(),
        2 + 800 * witness.n_permutations <= usize::MAX / 2,
    ensures
        r.layout == layout_of(2, 2, witness.n_permutations as nat),
        r.data@ == padded_words(
            shift_public(),
            witness.words@,
            ceil_pow2((2 + 800 * witness.n_permutations) as nat),
        ),
{
    let layout = value_vec_layout(witness.n_permutations());
    let data = shift_witness_words(witness);
    ValueVec { layout, data }
}

/// Whether a constraint is the chi row of a lane: `a = B[x+1,y]`, `b = B[x+2,y]`,
/// `c = B[x,y] + A_next[x,y]`.
pub open spec fn is_shift_chi_row(c: AndConstraint, base: int, p: int, r: int, l: int) -> bool {
    &&& c.a@ == virtual_b_terms(base, p, r, right_of(l, 1))
    &&& c.b@ == virtual_b_terms(base, p, r, right_of(l, 2))
    &&& c.c@ == virtual_b_terms(base, p, r, l).push(plain_term_of(base + slot(p, r + 1, l)))
}

/// Whether a constraint is the row `0 & 0 = D_r[x] + ...` of a theta correction.
pub open spec fn is_d_row(c: AndConstraint, base: int, p: int, r: int, x: int) -> bool {
    &&& c.a@.len() == 0
    &&& c.b@.len() == 0
    &&& c.c@ == d_correctness_terms(base, p, r, x)
}

/// Builds the operand constraints of all chi rows, in the order permutation, round, lane. The
/// complement and the round constant of the chi relation are not in them.
pub fn chi_constraints_at(base_index: usize, n_permutations: usize) -> (res: Vec<AndConstraint>)
    requires
        base_index + 800 * n_permutations <= u32::MAX,
    ensures
        res@.len() == 600 * n_permutations,
        forall|i: int|
            0 <= i < 600 * n_permutations ==> is_shift_chi_row(
                #[trigger] res@[i],
                base_index as int,
                i / 600,
                (i % 600) / 25,
                i % 25,
            ),
        are_shift_chi_rows(res@, base_index as int, n_permutations as int),
{
    let mut constraints: Vec<AndConstraint> = Vec::new();
    for permutation in 0..n_permutations
        invariant
            base_index + 800 * n_permutations <= u32::MAX,
            constraints@.len() == 600 * permutation,
            forall|i: int|
                0 <= i < constraints@.len() ==> is_shift_chi_row(
                    #[trigger] constraints@[i],
                    base_index as int,
                    i / 600,
                    (i % 600) / 25,
                    i % 25,
                ),
    {
        for round in 0..24
            invariant
                base_index + 800 * n_permutations <= u32::MAX,
                permutation < n_permutations,
                constraints@.len() == 600 * permutation + 25 * round,
                forall|i: int|
                    0 <= i < constraints@.len() ==> is_shift_chi_row(
                        #[trigger] constraints@[i],
                        base_index as int,
                        i / 600,
                        (i % 600) / 25,
                        i % 25,
                    ),
        {
            for lane_idx in 0..25
                invariant
                    base_index + 800 * n_permutations <= u32::MAX,
                    permutation < n_permutations,
                    round < 24,
                    constraints@.len() == 600 * permutation + 25 * round + lane_idx,
                    forall|i: int|
                        0 <= i < constraints@.len() ==> is_shift_chi_row(
                            #[trigger] constraints@[i],
                            base_index as int,
                            i / 600,
                            (i % 600) / 25,
                            i % 25,
                        ),
            {
                proof {
                    lemma_chi_operand_lanes(lane_idx as int);
                    let i = 600 * permutation + 25 * round + lane_idx;
                    assert(i / 600 == permutation && (i % 600) / 25 == round && i % 25 == lane_idx);
                }
                let (p_lane, q_lane, r_lane) = CHI_OPERAND_LANES[lane_idx];
                let mut c = virtual_b_operand_at(base_index, permutation, round, r_lane);
                c.push(rotl_term(base_index + layout::a_index(permutation, round + 1, lane_idx), 0));
                let a = virtual_b_operand_at(base_index, permutation, round, p_lane);
                let b = virtual_b_operand_at(base_index, permutation, round, q_lane);
                constraints.push(AndConstraint { a, b, c });
            }
        }
    }
    constraints
}

/// Builds the chi rows at the canonical witness base.
pub fn chi_constraints(n_permutations: usize) -> (res: Vec<AndConstraint>)
    requires
        2 + 800 * n_permutations <= u32::MAX,
    ensures
        res@.len() == 600 * n_permutations,
        forall|i: int|
            0 <= i < 600 * n_permutations ==> is_shift_chi_row(
                #[trigger] res@[i],
                2,
                i / 600,
                (i % 600) / 25,
                i % 25,
            ),
        are_shift_chi_rows(res@, 2, n_permutations as int),
{
    chi_constraints_at(committed_witness_base(), n_permutations)
}

/// Builds the rows `0 & 0 = D_r[x] + sum_y A_r[x-1,y] + sum_y rotl_1(A_r[x+1,y])`, in the order
/// permutation, round, column.
pub fn d_correctness_constraints_at(base_index: usize, n_permutations: usize) -> (res: Vec<
    AndConstraint,
>)
    requires
        base_index + 800 * n_permutations <= u32::MAX,
    ensures
        res@.len() == 120 * n_permutations,
        forall|i: int|
            0 <= i < 120 * n_permutations ==> is_d_row(
                #[trigger] res@[i],
                base_index as int,
                i / 120,
                (i % 120) / 5,
                i % 5,
            ),
        are_d_rows(res@, base_index as int, n_permutations as int),
{
    let mut constraints: Vec<AndConstraint> = Vec::new();
    for permutation in 0..n_permutations
        invariant
            base_index + 800 * n_permutations <= u32::MAX,
            constraints@.len() == 120 * permutation,
            forall|i: int|
                0 <= i < constraints@.len() ==> is_d_row(
                    #[trigger] constraints@[i],
                    base_index as int,
                    i / 120,
                    (i % 120) / 5,
                    i % 5,
                ),
    {
        for round in 0..24
            invariant
                base_index + 800 * n_permutations <= u32::MAX,
                permutation < n_permutations,
                constraints@.len() == 120 * permutation + 5 * round,
                forall|i: int|
                    0 <= i < constraints@.len() ==> is_d_row(
                        #[trigger] constraints@[i],
                        base_index as int,
                        i / 120,
                        (i % 120) / 5,
                        i % 5,
                    ),
        {
            for x in 0..5
                invariant
                    base_index + 800 * n_permutations <= u32::MAX,
                    permutation < n_permutations,
                    round < 24,
                    constraints@.len() == 120 * permutation + 5 * round + x,
                    forall|i: int|
                        0 <= i < constraints@.len() ==> is_d_row(
                            #[trigger] constraints@[i],
                            base_index as int,
                            i / 120,
                            (i % 120) / 5,
                            i % 5,
                        ),
            {
                proof {
                    let i = 120 * permutation + 5 * round + x;
                    assert(i / 120 == permutation && (i % 120) / 5 == round && i % 5 == x);
                }
                let c = d_correctness_operand_at(base_index, permutation, round, x);
                constraints.push(AndConstraint { a: Vec::new(), b: Vec::new(), c });
            }
        }
    }
    constraints
}

/// Builds the `D` correctness constraints at the canonical witness base.
fn canonical_d_rows(n_permutations: usize) -> (res: Vec<AndConstraint>)
    requires
        2 + 800 * n_permutations <= u32::MAX,
    ensures
        res@.len() == 120 * n_permutations,
        forall|i: int|
            0 <= i < 120 * n_permutations ==> is_d_row(
                #[trigger] res@[i],
                2,
                i / 120,
                (i % 120) / 5,
                i % 5,
            ),
{
    d_correctness_constraints_at(committed_witness_base(), n_permutations)
}

/// Builds the `D` correctness constraints at the canonical witness base.
pub fn d_correctness_constraints(n_permutations: usize) -> (res: Vec<AndConstraint>)
    requires
        2 + 800 * n_permutations <= u32::MAX,
    ensures
        res@.len() == 120 * n_permutations,
        forall|i: int|
            0 <= i < 120 * n_permutations ==> is_d_row(
                #[trigger] res@[i],
                2,
                i / 120,
                (i % 120) / 5,
                i % 5,
            ),
        are_d_rows(res@, 2, n_permutations as int),
{
    canonical_d_rows(n_permutations)
}

/// The terms of a virtual lane are in range.
pub proof fn lemma_virtual_b_ok(base: int, p: int, r: int, b: int, n: int)
    requires
        0 <= base,
        0 <= p,
        0 <= r < 24,
        0 <= b < 25,
        base + 800 * p + 800 <= n <= u32::MAX,
    ensures
        operand_ok(virtual_b_terms(base, p, r, b), n),
{
    lemma_rho_pi_preimage(b);
}

/// The terms of a theta correction are in range.
pub proof fn lemma_d_terms_ok(base: int, p: int, r: int, x: int, n: int)
    requires
        0 <= base,
        0 <= p,
        0 <= r < 24,
        0 <= x < 5,
        base + 800 * p + 800 <= n <= u32::MAX,
    ensures
        operand_ok(d_correctness_terms(base, p, r, x), n),
{
}

/// Builds the constraint system of the chi operands, padded to a power of two.
pub fn chi_constraint_system(n_permutations: usize) -> (res: ConstraintSystem)
    requires
        2 + 800 * n_permutations <= u32::MAX,
        2 + 800 * n_permutations <= usize::MAX / 2,
    ensures
        res.value_vec_layout == layout_of(2, 2, n_permutations as nat),
        res.constants@ == shift_public(),
        res.and_constraints@.len() == ceil_pow2((600 * n_permutations) as nat),
        forall|i: int|
            0 <= i < 600 * n_permutations ==> is_shift_chi_row(
                #[trigger] res.and_constraints@[i],
                2,
                i / 600,
                (i % 600) / 25,
                i % 25,
            ),
        forall|i: int|
            600 * n_permutations <= i < res.and_constraints@.len() ==> is_empty_and(
                #[trigger] res.and_constraints@[i],
            ),
        is_padded_mul(Seq::empty(), res.mul_constraints@),
        forall|words: Seq<Word>, p: int, r: int, l: int|
            0 <= p < n_permutations && 0 <= r < 24 && 0 <= l < 25 && corrections_fit(
                words,
                2,
                p,
                r,
            ) ==> #[trigger] chi_row_reads(
                res.and_constraints@[600 * p + 25 * r + l],
                words,
                2,
                p,
                r,
                l,
            ),
{
    let rows = chi_constraints(n_permutations);
    let ghost before = rows@;
    let constants: Vec<Word> = vec![Word(0), Word(0)];
    assert(constants@ =~= shift_public());
    let mut cs = ConstraintSystem {
        value_vec_layout: value_vec_layout(n_permutations),
        constants,
        and_constraints: rows,
        mul_constraints: Vec::new(),
    };
    cs.prepare();
    proof {
        assert forall|i: int| 0 <= i < 600 * n_permutations implies is_shift_chi_row(
            #[trigger] cs.and_constraints@[i],
            2,
            i / 600,
            (i % 600) / 25,
            i % 25,
        ) by {
            assert(before[i] == cs.and_constraints@.subrange(0, before.len() as int)[i]);
        }
        assert(Seq::<MulConstraint>::empty() =~= cs.mul_constraints@.subrange(0, 0));
        assert forall|words: Seq<Word>, p: int, r: int, l: int|
            0 <= p < n_permutations && 0 <= r < 24 && 0 <= l < 25 && corrections_fit(
                words,
                2,
                p,
                r,
            ) implies #[trigger] chi_row_reads(
            cs.and_constraints@[600 * p + 25 * r + l],
            words,
            2,
            p,
            r,
            l,
        ) by {
            let i = 600 * p + 25 * r + l;
            assert(i / 600 == p && (i % 600) / 25 == r && i % 25 == l);
            assert(is_shift_chi_row(cs.and_constraints@[i], 2, p, r, l));
            lemma_chi_row_reads(cs.and_constraints@[i], words, 2, p, r, l);
        }
    }
    cs
}

/// The `D` rows with their layout and constants, padded to a power of two.
#[verifier::spinoff_prover]
#[verifier::rlimit(60)]
fn padded_d_rows(n_permutations: usize) -> (res: ConstraintSystem)
    requires
        2 + 800 * n_permutations <= u32::MAX,
        2 + 800 * n_permutations <= usize::MAX / 2,
    ensures
        res.value_vec_layout == layout_of(2, 2, n_permutations as nat),
        res.constants@ == shift_public(),
        res.and_constraints@.len() == ceil_pow2((120 * n_permutations) as nat),
        forall|i: int|
            0 <= i < 120 * n_permutations ==> is_d_row(
                #[trigger] res.and_constraints@[i],
                2,
                i / 120,
                (i % 120) / 5,
                i % 5,
            ),
        forall|i: int|
            120 * n_permutations <= i < res.and_constraints@.len() ==> is_empty_and(
                #[trigger] res.and_constraints@[i],
            ),
        is_padded_mul(Seq::empty(), res.mul_constraints@),
        res.wf(),
{
    let rows = canonical_d_rows(n_permutations);
    let ghost before = rows@;
    let constants: Vec<Word> = vec![Word(0), Word(0)];
    assert(constants@ =~= shift_public());
    let mut cs = ConstraintSystem {
        value_vec_layout: value_vec_layout(n_permutations),
        constants,
        and_constraints: rows,
        mul_constraints: Vec::new(),
    };
    cs.prepare();
    proof {
        let n = n_permutations as int;
        let total = cs.value_vec_layout.committed_total_len as int;
        lemma_ceil_pow2((2 + 800 * n) as nat);
        assert forall|i: int| 0 <= i < 120 * n implies is_d_row(
            #[trigger] cs.and_constraints@[i],
            2,
            i / 120,
            (i % 120) / 5,
            i % 5,
        ) && and_ok(cs.and_constraints@[i], total) by {
            assert(before[i] == cs.and_constraints@.subrange(0, before.len() as int)[i]);
            lemma_d_terms_ok(2, i / 120, (i % 120) / 5, i % 5, 2 + 800 * n);
        }
        assert(Seq::<MulConstraint>::empty() =~= cs.mul_constraints@.subrange(0, 0));
    }
    cs
}

/// Builds the constraint system of the `D` corrections, padded to a power of two.
pub fn d_correctness_constraint_system(n_permutations: usize) -> (res: ConstraintSystem)
    requires
        2 + 800 * n_permutations <= u32::MAX,
        2 + 800 * n_permutations <= usize::MAX / 2,
    ensures
        res.value_vec_layout == layout_of(2, 2, n_permutations as nat),
        res.constants@ == shift_public(),
        res.and_constraints@.len() == ceil_pow2((120 * n_permutations) as nat),
        forall|i: int|
            0 <= i < 120 * n_permutations ==> is_d_row(
                #[trigger] res.and_constraints@[i],
                2,
                i / 120,
                (i % 120) / 5,
                i % 5,
            ),
        forall|i: int|
            120 * n_permutations <= i < res.and_constraints@.len() ==> is_empty_and(
                #[trigger] res.and_constraints@[i],
            ),
        is_padded_mul(Seq::empty(), res.mul_constraints@),
        res.wf(),
        forall|words: Seq<Word>| #[trigger]
            res.satisfied_by(words) == all_corrections_fit(words, 2, n_permutations as int),
{
    let cs = padded_d_rows(n_permutations);
    proof {
        let n = n_permutations as int;
        lemma_ceil_pow2((120 * n) as nat);
        assert forall|words: Seq<Word>| #[trigger] cs.satisfied_by(words) == all_corrections_fit(
            words,
            2,
            n,
        ) by {
            lemma_d_system_iff(cs, words, n);
        }
    }
    cs
}

/// Whether the committed lanes and corrections of round `r` fit together.
pub open spec fn corrections_fit(words: Seq<Word>, base: int, p: int, r: int) -> bool {
    forall|x: int|
        0 <= x < 5 ==> (#[trigger] words[base + slot(p, r, 25 + x)]).0 == theta_word(
            block_state(words, base, p, r),
            x,
        )
}

/// Where the corrections fit, a virtual lane is the pre-chi lane of the committed state.
pub proof fn lemma_virtual_b_is_pre_chi(words: Seq<Word>, base: int, p: int, r: int, b: int)
    requires
        0 <= base,
        0 <= p,
        0 <= r < 24,
        0 <= b < 25,
        base + 800 * p + 800 <= u32::MAX,
        corrections_fit(words, base, p, r),
    ensures
        operand_value(words, virtual_b_terms(base, p, r, b)) == pre_chi_of(
            block_state(words, base, p, r),
        )[b],
{
    reveal(pre_chi_of);
    lemma_virtual_b(words, base, p, r, b);
    lemma_rho_pi_preimage(b);
    let s = block_state(words, base, p, r);
    let source = rho_pi_source(b);
    assert(words[base + slot(p, r, 25 + source % 5)].0 == theta_word(s, source % 5));
    assert(theta_of(s)[source] == s[source] ^ theta_word(s, source % 5));
}

proof fn lemma_xor_zero_bits(a: u64, b: u64)
    by (bit_vector)
    ensures
        (a ^ b == 0) == (a == b),
        0u64 & 0u64 == 0u64,
{
}

/// A theta-correction row holds exactly where the committed correction is the one that the
/// committed lanes ask for.
pub proof fn lemma_d_row(c: AndConstraint, words: Seq<Word>, base: int, p: int, r: int, x: int)
    requires
        is_d_row(c, base, p, r, x),
        0 <= base,
        0 <= p,
        0 <= r < 24,
        0 <= x < 5,
        base + 800 * p + 800 <= u32::MAX,
    ensures
        and_holds(words, c) == (words[base + slot(p, r, 25 + x)].0 == theta_word(
            block_state(words, base, p, r),
            x,
        )),
{
    lemma_d_correctness(words, base, p, r, x);
    lemma_xor_zero_bits(
        words[base + slot(p, r, 25 + x)].0,
        theta_word(block_state(words, base, p, r), x),
    );
}

/// The committed lanes of a laid-out witness are those of the traces, and the corrections fit.
pub proof fn lemma_honest_block(
    traces: Seq<PermutationTrace>,
    public: Seq<Word>,
    total: nat,
    p: int,
    r: int,
)
    requires
        0 <= p < traces.len(),
        0 <= r < 25,
        public.len() + 800 * traces.len() <= total,
    ensures
        ({
            let words = padded_words(public, committed_words(traces), total);
            let base = public.len() as int;
            &&& block_state(words, base, p, r) == (if r < 24 {
                traces[p].rounds[r].input@
            } else {
                traces[p].rounds[23].output@
            })
            &&& r < 24 ==> corrections_fit(words, base, p, r)
        }),
{
    let words = padded_words(public, committed_words(traces), total);
    let base = public.len() as int;
    assert forall|s: int| 0 <= s < 32 implies (#[trigger] words[base + slot(p, r, s)]).0
        == block_word(traces[p], r, s) by {
        lemma_committed_slot(traces, p, r, s);
    }
    let state = if r < 24 {
        traces[p].rounds[r].input@
    } else {
        traces[p].rounds[23].output@
    };
    assert(block_state(words, base, p, r) =~= state);
    if r < 24 {
        assert forall|x: int| 0 <= x < 5 implies (#[trigger] words[base + slot(p, r, 25 + x)]).0
            == theta_word(block_state(words, base, p, r), x) by {}
    }
}

/// On the witness of well-formed traces, the operands of a chi row are the pre-chi lanes to the
/// right, and the sum of the pre-chi lane and the output lane.
#[verifier::spinoff_prover]
#[verifier::rlimit(60)]
pub proof fn lemma_chi_row_operands(
    c: AndConstraint,
    traces: Seq<PermutationTrace>,
    total: nat,
    p: int,
    r: int,
    l: int,
)
    requires
        0 <= p < traces.len(),
        0 <= r < 24,
        0 <= l < 25,
        traces[p].wf(),
        2 + 800 * traces.len() <= total,
        2 + 800 * traces.len() <= u32::MAX,
        is_shift_chi_row(c, 2, p, r, l),
    ensures
        ({
            let words = padded_words(shift_public(), committed_words(traces), total);
            let t = traces[p].rounds[r];
            &&& operand_value(words, c.a@) == t.pre_chi@[right_of(l, 1)]
            &&& operand_value(words, c.b@) == t.pre_chi@[right_of(l, 2)]
            &&& operand_value(words, c.c@) == t.pre_chi@[l] ^ t.output@[l]
        }),
{
    let words = padded_words(shift_public(), committed_words(traces), total);
    lemma_honest_block(traces, shift_public(), total, p, r);
    lemma_honest_block(traces, shift_public(), total, p, r + 1);
    assert(super::trace::is_round_trace(traces[p].rounds[r], r));
    if r < 23 {
        assert(traces[p].rounds[r].output@ == traces[p].rounds[r + 1].input@);
    }
    lemma_virtual_b_is_pre_chi(words, 2, p, r, right_of(l, 1));
    lemma_virtual_b_is_pre_chi(words, 2, p, r, right_of(l, 2));
    lemma_virtual_b_is_pre_chi(words, 2, p, r, l);
    let b = virtual_b_terms(2, p, r, l);
    assert(c.c@.drop_last() =~= b);
    lemma_rotl_term(words, 2 + slot(p, r + 1, l), 0);
    assert(block_state(words, 2, p, r + 1)[l] == words[2 + slot(p, r + 1, l)].0);
}

/// Whether the corrections of every round of the first `n` permutations fit.
pub open spec fn all_corrections_fit(words: Seq<Word>, base: int, n: int) -> bool {
    forall|p: int, r: int|
        0 <= p < n && 0 <= r < 24 ==> #[trigger] corrections_fit(words, base, p, r)
}

/// Whether the operands of a row are the lanes that chi takes for lane `l` of round `r`: the two
/// factors are the pre-chi lanes one and two to the right, and the product is the pre-chi lane itself
/// plus the lane of the next round.
pub open spec fn chi_row_reads(
    c: AndConstraint,
    words: Seq<Word>,
    base: int,
    p: int,
    r: int,
    l: int,
) -> bool {
    let pre = pre_chi_of(block_state(words, base, p, r));
    &&& operand_value(words, c.a@) == pre[right_of(l, 1)]
    &&& operand_value(words, c.b@) == pre[right_of(l, 2)]
    &&& operand_value(words, c.c@) == pre[l] ^ block_state(words, base, p, r + 1)[l]
}

/// A chi row reads the lanes of its round wherever the corrections fit.
pub proof fn lemma_chi_row_reads(
    c: AndConstraint,
    words: Seq<Word>,
    base: int,
    p: int,
    r: int,
    l: int,
)
    requires
        0 <= base,
        0 <= p,
        0 <= r < 24,
        0 <= l < 25,
        base + 800 * p + 800 <= u32::MAX,
        is_shift_chi_row(c, base, p, r, l),
        corrections_fit(words, base, p, r),
    ensures
        chi_row_reads(c, words, base, p, r, l),
{
    lemma_virtual_b_is_pre_chi(words, base, p, r, right_of(l, 1));
    lemma_virtual_b_is_pre_chi(words, base, p, r, right_of(l, 2));
    lemma_virtual_b_is_pre_chi(words, base, p, r, l);
    let b = virtual_b_terms(base, p, r, l);
    assert(c.c@.drop_last() =~= b);
    lemma_rotl_term(words, base + slot(p, r + 1, l), 0);
    assert(block_state(words, base, p, r + 1)[l] == words[base + slot(p, r + 1, l)].0);
}

/// Whether the rows are the chi rows of `n` permutations, in the order permutation, round, lane.
pub open spec fn are_shift_chi_rows(rows: Seq<AndConstraint>, base: int, n: int) -> bool {
    &&& rows.len() == 600 * n
    &&& forall|i: int|
        0 <= i < 600 * n ==> is_shift_chi_row(
            #[trigger] rows[i],
            base,
            i / 600,
            (i % 600) / 25,
            i % 25,
        )
}

/// Whether the rows are the `D` rows of `n` permutations, in the order permutation, round, column.
pub open spec fn are_d_rows(rows: Seq<AndConstraint>, base: int, n: int) -> bool {
    &&& rows.len() == 120 * n
    &&& forall|i: int|
        0 <= i < 120 * n ==> is_d_row(#[trigger] rows[i], base, i / 120, (i % 120) / 5, i % 5)
}

/// Row `600 p + 25 r + l` of the chi rows reads the lanes of round `r` of permutation `p`.
pub proof fn lemma_chi_rows_read(
    rows: Seq<AndConstraint>,
    words: Seq<Word>,
    base: int,
    n: int,
    p: int,
    r: int,
    l: int,
)
    requires
        0 <= base,
        0 <= p < n,
        0 <= r < 24,
        0 <= l < 25,
        base + 800 * n <= u32::MAX,
        are_shift_chi_rows(rows, base, n),
        corrections_fit(words, base, p, r),
    ensures
        chi_row_reads(rows[600 * p + 25 * r + l], words, base, p, r, l),
{
    let i = 600 * p + 25 * r + l;
    assert(i / 600 == p && (i % 600) / 25 == r && i % 25 == l);
    assert(is_shift_chi_row(rows[i], base, i / 600, (i % 600) / 25, i % 25));
    lemma_chi_row_reads(rows[i], words, base, p, r, l);
}

/// The `D` rows all hold exactly of the words whose corrections fit in every round of every
/// permutation.
pub proof fn lemma_d_rows_iff(rows: Seq<AndConstraint>, words: Seq<Word>, base: int, n: int)
    requires
        0 <= base,
        0 <= n,
        base + 800 * n <= u32::MAX,
        are_d_rows(rows, base, n),
    ensures
        (forall|i: int| 0 <= i < rows.len() ==> and_holds(words, #[trigger] rows[i]))
            == all_corrections_fit(words, base, n),
{
    if forall|i: int| 0 <= i < rows.len() ==> and_holds(words, #[trigger] rows[i]) {
        assert forall|p: int, r: int| 0 <= p < n && 0 <= r < 24 implies #[trigger] corrections_fit(
            words,
            base,
            p,
            r,
        ) by {
            assert forall|x: int| 0 <= x < 5 implies (#[trigger] words[base + slot(
                p,
                r,
                25 + x,
            )]).0 == theta_word(block_state(words, base, p, r), x) by {
                let i = 120 * p + 5 * r + x;
                assert(i / 120 == p && (i % 120) / 5 == r && i % 5 == x);
                assert(is_d_row(rows[i], base, i / 120, (i % 120) / 5, i % 5));
                lemma_d_row(rows[i], words, base, p, r, x);
                assert(and_holds(words, rows[i]));
            }
        }
    }
    if all_corrections_fit(words, base, n) {
        assert forall|i: int| 0 <= i < rows.len() implies and_holds(words, #[trigger] rows[i]) by {
            let (p, r, x) = (i / 120, (i % 120) / 5, i % 5);
            assert(corrections_fit(words, base, p, r));
            lemma_d_row(rows[i], words, base, p, r, x);
            assert(words[base + slot(p, r, 25 + x)].0 == theta_word(
                block_state(words, base, p, r),
                x,
            ));
        }
    }
}

/// The `D` constraint system is satisfied exactly by the words whose corrections fit in every round of
/// every permutation.
pub proof fn lemma_d_system_iff(cs: ConstraintSystem, words: Seq<Word>, n: int)
    requires
        0 <= n,
        2 + 800 * n <= u32::MAX,
        120 * n <= cs.and_constraints@.len(),
        forall|i: int|
            0 <= i < 120 * n ==> is_d_row(
                #[trigger] cs.and_constraints@[i],
                2,
                i / 120,
                (i % 120) / 5,
                i % 5,
            ),
        forall|i: int|
            120 * n <= i < cs.and_constraints@.len() ==> is_empty_and(
                #[trigger] cs.and_constraints@[i],
            ),
        is_padded_mul(Seq::empty(), cs.mul_constraints@),
    ensures
        cs.satisfied_by(words) == all_corrections_fit(words, 2, n),
{
    let rows = cs.and_constraints@;
    let own = rows.subrange(0, 120 * n);
    assert forall|i: int| 0 <= i < 120 * n implies is_d_row(
        #[trigger] own[i],
        2,
        i / 120,
        (i % 120) / 5,
        i % 5,
    ) by {
        assert(own[i] == rows[i]);
    }
    lemma_d_rows_iff(own, words, 2, n);
    if cs.satisfied_by(words) {
        assert forall|i: int| 0 <= i < own.len() implies and_holds(words, #[trigger] own[i]) by {
            assert(and_holds(words, rows[i]));
        }
    }
    if all_corrections_fit(words, 2, n) {
        assert forall|i: int| 0 <= i < rows.len() implies and_holds(words, #[trigger] rows[i]) by {
            lemma_xor_zero_bits(0, 0);
            if i < 120 * n {
                assert(and_holds(words, own[i]));
            }
        }
        assert forall|i: int| 0 <= i < cs.mul_constraints@.len() implies
            crate::constraint_system::mul_holds(words, #[trigger] cs.mul_constraints@[i]) by {
            assert(crate::constraint_system::is_empty_mul(cs.mul_constraints@[i]));
            assert(0u64 * 0u64 == 0) by (nonlinear_arith);
        }
    }
}

/// The `D` constraint system is satisfied by the witness of every batch of traces.
pub proof fn lemma_d_system_complete(cs: ConstraintSystem, traces: Seq<PermutationTrace>)
    requires
        2 + 800 * traces.len() <= u32::MAX,
        forall|i: int|
            0 <= i < 120 * traces.len() ==> is_d_row(
                #[trigger] cs.and_constraints@[i],
                2,
                i / 120,
                (i % 120) / 5,
                i % 5,
            ),
        forall|i: int|
            120 * traces.len() <= i < cs.and_constraints@.len() ==> is_empty_and(
                #[trigger] cs.and_constraints@[i],
            ),
        is_padded_mul(Seq::empty(), cs.mul_constraints@),
    ensures
        cs.satisfied_by(
            padded_words(
                shift_public(),
                committed_words(traces),
                ceil_pow2(2 + 800 * traces.len()),
            ),
        ),
{
    let total = ceil_pow2(2 + 800 * traces.len());
    let words = padded_words(shift_public(), committed_words(traces), total);
    lemma_ceil_pow2(2 + 800 * traces.len());
    assert forall|i: int| 0 <= i < cs.and_constraints@.len() implies and_holds(
        words,
        #[trigger] cs.and_constraints@[i],
    ) by {
        lemma_xor_zero_bits(0, 0);
        if i < 120 * traces.len() {
            let (p, r, x) = (i / 120, (i % 120) / 5, i % 5);
            lemma_honest_block(traces, shift_public(), total, p, r);
            lemma_d_row(cs.and_constraints@[i], words, 2, p, r, x);
            assert(words[2 + slot(p, r, 25 + x)].0 == theta_word(block_state(words, 2, p, r), x));
        }
    }
    assert forall|i: int| 0 <= i < cs.mul_constraints@.len() implies
        crate::constraint_system::mul_holds(words, #[trigger] cs.mul_constraints@[i]) by {
        assert(crate::constraint_system::is_empty_mul(cs.mul_constraints@[i]));
        assert(0u64 * 0u64 == 0) by (nonlinear_arith);
    }
}

} // verus!
