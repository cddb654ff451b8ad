//! The full constraint system of committed Keccak traces.
use super::bit_ntt::{lemma_chi_operand_lanes, CHI_OPERAND_LANES};
use super::constants::ROUND_CONSTANTS;
use super::layout;
use super::layout::slot;
use super::operands::{lemma_residual_zero_iff_round, operands_of, residual_word};
use super::shift_claims::{
    corrections_fit, is_d_row, lay_out_words, layout_of, lemma_d_row, lemma_d_terms_ok,
    lemma_honest_block, lemma_virtual_b_is_pre_chi, lemma_virtual_b_ok, padded_words,
};
use super::shift_operands::{
    block_state, d_correctness_operand_at, lemma_rotl_term, plain_term_of, rotl_term,
    virtual_b_operand_at, virtual_b_terms,
};
use super::trace::{is_round_trace, pre_chi_of, right_of, round_state, theta_word, PermutationTrace};
use super::witness::{committed_words, CommittedKeccakWitness};
use crate::constraint_system::{
    and_holds, and_ok, ceil_pow2, is_empty_and, is_empty_mul, is_padded_mul, lemma_ceil_pow2,
    mul_holds, next_power_of_two, operand_value, term_value, AndConstraint, ConstraintSystem,
    MulConstraint, Operand, ShiftedValueIndex, ValueVec, ValueVecLayout, Word,
};
use vstd::prelude::*;

verus! {

/// Public constant index of the all-one word used by `P = 1 + B[x+1,y]`.
pub const ALL_ONE_INDEX: usize = 0;

/// Public constant offset of the 24 Keccak round constants.
pub const ROUND_CONSTANTS_OFFSET: usize = ALL_ONE_INDEX + 1;

/// Number of explicit public constants.
pub const N_CONSTANTS: usize = ROUND_CONSTANTS_OFFSET + 24;

/// Padded public segment size.
pub const PUBLIC_WORDS: usize = 32;

/// Number of AND constraint slots per `(permutation, round)` block.
pub const CONSTRAINT_ROWS_PER_ROUND: usize = 32;

/// First slot of the five `D` correctness rows inside a round constraint block.
pub const D_CONSTRAINT_OFFSET: usize = 25;

/// The value-vector base offset of the committed Keccak `A`/`D` witness.
pub fn committed_witness_base() -> (r: usize)
    ensures
        r == 32,
{
    PUBLIC_WORDS
}

/// The public constants: the all-one word, then the round constants.
pub open spec fn constant_words() -> Seq<Word> {
    Seq::new(
        25,
        |i: int|
            if i == 0 {
                Word(0xffff_ffff_ffff_ffff)
            } else {
                Word(ROUND_CONSTANTS[i - 1])
            },
    )
}

/// The public segment: the constants, then zeros.
pub open spec fn public_words() -> Seq<Word> {
    Seq::new(
        32,
        |i: int|
            if i < 25 {
                constant_words()[i]
            } else {
                Word(0)
            },
    )
}

/// The public constants.
pub fn constants() -> (r: Vec<Word>)
    ensures
        r@ == constant_words(),
{
    let mut constants: Vec<Word> = Vec::new();
    constants.push(Word(0xffff_ffff_ffff_ffff));
    for i in 0..24
        invariant
            constants@ =~= constant_words().take(1 + i),
    {
        constants.push(Word(ROUND_CONSTANTS[i]));
    }
    assert(constants@ =~= constant_words());
    constants
}

/// Value-vector layout of the full constraint system.
pub fn value_vec_layout(n_permutations: usize) -> (r: ValueVecLayout)
    requires
        32 + 800 * n_permutations <= usize::MAX / 2,
    ensures
        r == layout_of(32, 25, n_permutations as nat),
        r.committed_total_len == ceil_pow2((32 + 800 * n_permutations) as nat),
{
    let witness_len: usize = layout::witness_len(n_permutations);
    let committed_total_len: usize = next_power_of_two(committed_witness_base() + witness_len);
    let n_internal: usize = committed_total_len - committed_witness_base() - witness_len;
    ValueVecLayout {
        n_const: N_CONSTANTS,
        n_inout: 0,
        n_witness: witness_len,
        n_internal,
        offset_inout: PUBLIC_WORDS,
        offset_witness: committed_witness_base(),
        committed_total_len,
        n_scratch: 0,
    }
}

/// A value vector of the public constants and the committed Keccak witness.
pub fn value_vec(witness: &CommittedKeccakWitness) -> (r: ValueVec)
    requires
        witness.wf(),
        32 + 800 * witness.n_permutations <= usize::MAX / 2,
    ensures
        r.layout == layout_of(32, 25, witness.n_permutations as nat),
        r.data@ == padded_words(
            public_words(),
            witness.words@,
            ceil_pow2((32 + 800 * witness.n_permutations) as nat),
        ),
{
    let layout = value_vec_layout(witness.n_permutations());
    let mut public = constants();
    while public.len() < PUBLIC_WORDS
        invariant
            25 <= public@.len() <= 32,
            public@ =~= public_words().take(public@.len() as int),
        decreases 32 - public@.len(),
    {
        public.push(Word(0));
    }
    assert(public@ =~= public_words());
    proof {
        lemma_ceil_pow2((32 + 800 * witness.n_permutations) as nat);
    }
    let data = lay_out_words(public.as_slice(), witness.words(), layout.committed_total_len);
    ValueVec { layout, data }
}

/// Number of active chi constraints for `n_permutations` traces.
pub fn chi_row_count(n_permutations: usize) -> (r: usize)
    requires
        600 * n_permutations <= usize::MAX,
    ensures
        r == 600 * n_permutations,
{
    n_permutations * 24 * 25
}

/// Number of active chi plus `D` correctness rows for `n_permutations`.
pub fn active_row_count(n_permutations: usize) -> (r: usize)
    requires
        720 * n_permutations <= usize::MAX,
    ensures
        r == 720 * n_permutations,
{
    n_permutations * 24 * 30
}

/// Number of constraint slots for `n_permutations`, with two padding rows per round.
pub fn constraint_row_count(n_permutations: usize) -> (r: usize)
    requires
        768 * n_permutations <= usize::MAX,
    ensures
        r == 768 * n_permutations,
{
    n_permutations * 24 * CONSTRAINT_ROWS_PER_ROUND
}

/// The terms of the first factor of a chi row: `1 + B[x+1,y]`.
pub open spec fn chi_a_terms(base: int, p: int, r: int, l: int) -> Seq<ShiftedValueIndex> {
    seq![plain_term_of(0)] + virtual_b_terms(base, p, r, right_of(l, 1))
}

/// The terms of the product of a chi row: `B[x,y] + A_next[x,y] + iota`.
pub open spec fn chi_c_terms(base: int, p: int, r: int, l: int) -> Seq<ShiftedValueIndex> {
    let c = virtual_b_terms(base, p, r, l).push(plain_term_of(base + slot(p, r + 1, l)));
    if l == 0 {
        c.push(plain_term_of(1 + r))
    } else {
        c
    }
}

/// Whether a constraint is the chi row `(1 + B[x+1,y]) & B[x+2,y] = B[x,y] + A_next[x,y] + iota`.
pub open spec fn is_chi_row(c: AndConstraint, base: int, p: int, r: int, l: int) -> bool {
    &&& c.a@ == chi_a_terms(base, p, r, l)
    &&& c.b@ == virtual_b_terms(base, p, r, right_of(l, 2))
    &&& c.c@ == chi_c_terms(base, p, r, l)
}

fn chi_constraint_at(base_index: usize, permutation: usize, round: usize, lane_idx: usize) -> (res:
    AndConstraint)
    requires
        base_index + 800 * permutation + 800 <= u32::MAX,
        round < 24,
        lane_idx < 25,
    ensures
        is_chi_row(res, base_index as int, permutation as int, round as int, lane_idx as int),
{
    proof {
        lemma_chi_operand_lanes(lane_idx as int);
    }
    let (p_lane, q_lane, r_lane) = CHI_OPERAND_LANES[lane_idx];
    let mut a: Operand = Vec::new();
    a.push(rotl_term(ALL_ONE_INDEX, 0));
    let pb = virtual_b_operand_at(base_index, permutation, round, p_lane);
    a.push(pb[0]);
    a.push(pb[1]);
    assert(a@ =~= chi_a_terms(
        base_index as int,
        permutation as int,
        round as int,
        lane_idx as int,
    ));
    let mut c = virtual_b_operand_at(base_index, permutation, round, r_lane);
    c.push(rotl_term(base_index + layout::a_index(permutation, round + 1, lane_idx), 0));
    if lane_idx == 0 {
        c.push(rotl_term(ROUND_CONSTANTS_OFFSET + round, 0));
    }
    let b = virtual_b_operand_at(base_index, permutation, round, q_lane);
    AndConstraint { a, b, c }
}

/// Builds the chi rows over the committed witness, in the order permutation, round, lane.
pub fn chi_constraints_at(base_index: usize, n_permutations: usize) -> (res: Vec<AndConstraint>)
    requires
        base_index + 800 * n_permutations <= u32::MAX,
    ensures
        res@.len() == 600 * n_permutations,
        forall|i: int|
            0 <= i < 600 * n_permutations ==> is_chi_row(
                #[trigger] res@[i],
                base_index as int,
                i / 600,
                (i % 600) / 25,
                i % 25,
            ),
        are_chi_rows(res@, base_index as int, n_permutations as int),
{
    let mut constraints: Vec<AndConstraint> = Vec::new();
    for permutation in 0..n_permutations
        invariant
            base_index + 800 * n_permutations <= u32::MAX,
            constraints@.len() == 600 * permutation,
            forall|i: int|
                0 <= i < constraints@.len() ==> is_chi_row(
                    #[trigger] constraints@[i],
                    base_index as int,
                    i / 600,
                    (i % 600) / 25,
                    i % 25,
                ),
    {
        for j in 0..600
            invariant
                base_index + 800 * n_permutations <= u32::MAX,
                permutation < n_permutations,
                constraints@.len() == 600 * permutation + j,
                forall|i: int|
                    0 <= i < constraints@.len() ==> is_chi_row(
                        #[trigger] constraints@[i],
                        base_index as int,
                        i / 600,
                        (i % 600) / 25,
                        i % 25,
                    ),
        {
            let round: usize = j / 25;
            let lane_idx: usize = j % 25;
            proof {
                let i = 600 * permutation + j;
                assert(i / 600 == permutation && (i % 600) / 25 == round && i % 25 == lane_idx);
            }
            constraints.push(chi_constraint_at(base_index, permutation, round, lane_idx));
        }
    }
    constraints
}

/// Builds the chi rows at the canonical committed witness base.
pub fn chi_constraints(n_permutations: usize) -> (res: Vec<AndConstraint>)
    requires
        32 + 800 * n_permutations <= u32::MAX,
    ensures
        res@.len() == 600 * n_permutations,
        forall|i: int|
            0 <= i < 600 * n_permutations ==> is_chi_row(
                #[trigger] res@[i],
                32,
                i / 600,
                (i % 600) / 25,
                i % 25,
            ),
        are_chi_rows(res@, 32, n_permutations as int),
{
    chi_constraints_at(committed_witness_base(), n_permutations)
}

/// Whether a constraint is row `s` of a round block: 25 chi rows, five `D` rows, two empty rows.
pub open spec fn is_block_row(c: AndConstraint, p: int, r: int, s: int) -> bool {
    if s < 25 {
        is_chi_row(c, 32, p, r, s)
    } else if s < 30 {
        is_d_row(c, 32, p, r, s - 25)
    } else {
        is_empty_and(c)
    }
}

/// Whether the AND constraints are those of `n` permutations.
pub open spec fn are_block_rows(rows: Seq<AndConstraint>, n: int) -> bool {
    &&& rows.len() == ceil_pow2((768 * n) as nat)
    &&& forall|i: int|
        0 <= i < 768 * n ==> is_block_row(#[trigger] rows[i], i / 768, (i % 768) / 32, i % 32)
    &&& forall|i: int| 768 * n <= i < rows.len() ==> is_empty_and(#[trigger] rows[i])
}

fn push_round(constraints: &mut Vec<AndConstraint>, permutation: usize, round: usize)
    requires
        old(constraints)@.len() == 768 * permutation + 32 * round,
        round < 24,
        32 + 800 * permutation + 800 <= u32::MAX,
        forall|i: int|
            0 <= i < old(constraints)@.len() ==> is_block_row(
                #[trigger] old(constraints)@[i],
                i / 768,
                (i % 768) / 32,
                i % 32,
            ),
    ensures
        final(constraints)@.len() == 768 * permutation + 32 * round + 32,
        forall|i: int|
            0 <= i < final(constraints)@.len() ==> is_block_row(
                #[trigger] final(constraints)@[i],
                i / 768,
                (i % 768) / 32,
                i % 32,
            ),
{
    for s in 0..32
        invariant
            constraints@.len() == 768 * permutation + 32 * round + s,
            round < 24,
            32 + 800 * permutation + 800 <= u32::MAX,
            forall|i: int|
                0 <= i < constraints@.len() ==> is_block_row(
                    #[trigger] constraints@[i],
                    i / 768,
                    (i % 768) / 32,
                    i % 32,
                ),
    {
        proof {
            let i = 768 * permutation + 32 * round + s;
            assert(i / 768 == permutation && (i % 768) / 32 == round && i % 32 == s);
        }
        if s < D_CONSTRAINT_OFFSET {
            constraints.push(chi_constraint_at(committed_witness_base(), permutation, round, s));
        } else if s < D_CONSTRAINT_OFFSET + layout::D_WORDS_PER_BLOCK {
            let c = d_correctness_operand_at(
                committed_witness_base(),
                permutation,
                round,
                s - D_CONSTRAINT_OFFSET,
            );
            constraints.push(AndConstraint { a: Vec::new(), b: Vec::new(), c });
        } else {
            constraints.push(AndConstraint { a: Vec::new(), b: Vec::new(), c: Vec::new() });
        }
    }
}

/// Builds the constraint system of a batch of committed Keccak traces.
pub fn constraint_system(n_permutations: usize) -> (res: ConstraintSystem)
    requires
        32 + 800 * n_permutations <= u32::MAX,
        32 + 800 * n_permutations <= usize::MAX / 2,
    ensures
        res.value_vec_layout == layout_of(32, 25, n_permutations as nat),
        res.constants@ == constant_words(),
        are_block_rows(res.and_constraints@, n_permutations as int),
        is_padded_mul(Seq::empty(), res.mul_constraints@),
        res.wf(),
{
    let mut and_constraints: Vec<AndConstraint> = Vec::new();
    for permutation in 0..n_permutations
        invariant
            32 + 800 * n_permutations <= u32::MAX,
            32 + 800 * n_permutations <= usize::MAX / 2,
            and_constraints@.len() == 768 * permutation,
            forall|i: int|
                0 <= i < and_constraints@.len() ==> is_block_row(
                    #[trigger] and_constraints@[i],
                    i / 768,
                    (i % 768) / 32,
                    i % 32,
                ),
    {
        for round in 0..24
            invariant
                32 + 800 * n_permutations <= u32::MAX,
                32 + 800 * n_permutations <= usize::MAX / 2,
                permutation < n_permutations,
                and_constraints@.len() == 768 * permutation + 32 * round,
                forall|i: int|
                    0 <= i < and_constraints@.len() ==> is_block_row(
                        #[trigger] and_constraints@[i],
                        i / 768,
                        (i % 768) / 32,
                        i % 32,
                    ),
        {
            push_round(&mut and_constraints, permutation, round);
        }
    }
    let ghost before = and_constraints@;
    let mut cs = ConstraintSystem {
        value_vec_layout: value_vec_layout(n_permutations),
        constants: constants(),
        and_constraints,
        mul_constraints: Vec::new(),
    };
    cs.prepare();
    proof {
        let n = n_permutations as int;
        let total = cs.value_vec_layout.committed_total_len as int;
        lemma_ceil_pow2((32 + 800 * n) as nat);
        assert forall|i: int| 0 <= i < 768 * n implies is_block_row(
            #[trigger] cs.and_constraints@[i],
            i / 768,
            (i % 768) / 32,
            i % 32,
        ) && and_ok(cs.and_constraints@[i], total) by {
            assert(before[i] == cs.and_constraints@.subrange(0, before.len() as int)[i]);
            lemma_block_row_ok(cs.and_constraints@[i], i / 768, (i % 768) / 32, i % 32, n, total);
        }
        assert(Seq::<MulConstraint>::empty() =~= cs.mul_constraints@.subrange(0, 0));
    }
    cs
}

proof fn lemma_block_row_ok(c: AndConstraint, p: int, r: int, s: int, n: int, total: int)
    requires
        is_block_row(c, p, r, s),
        0 <= p < n,
        0 <= r < 24,
        0 <= s < 32,
        32 + 800 * n <= total,
        32 + 800 * n <= u32::MAX,
    ensures
        and_ok(c, total),
{
    let m = 32 + 800 * n;
    if s < 25 {
        lemma_virtual_b_ok(32, p, r, right_of(s, 1), m);
        lemma_virtual_b_ok(32, p, r, right_of(s, 2), m);
        lemma_virtual_b_ok(32, p, r, s, m);
        let va = virtual_b_terms(32, p, r, right_of(s, 1));
        assert forall|i: int| 0 <= i < c.a@.len() implies (#[trigger] c.a@[i]).value_index.0 < total
            && c.a@[i].amount < 64 by {
            if i > 0 {
                assert(c.a@[i] == va[i - 1]);
            }
        }
        let vc = virtual_b_terms(32, p, r, s);
        assert forall|i: int| 0 <= i < c.c@.len() implies (#[trigger] c.c@[i]).value_index.0 < total
            && c.c@[i].amount < 64 by {
            if i < 2 {
                assert(c.c@[i] == vc[i]);
            }
        }
    } else if s < 30 {
        lemma_d_terms_ok(32, p, r, s - 25, m);
    }
}

/// Whether the words start with the public constants.
pub open spec fn starts_with_constants(words: Seq<Word>) -> bool {
    &&& words.len() >= 32
    &&& forall|i: int| 0 <= i < 25 ==> #[trigger] words[i] == constant_words()[i]
}

/// Whether the committed blocks `r` and `r + 1` of permutation `p` are joined by round `r`.
pub open spec fn round_fits(words: Seq<Word>, p: int, r: int) -> bool {
    &&& corrections_fit(words, 32, p, r)
    &&& block_state(words, 32, p, r + 1) == round_state(block_state(words, 32, p, r), r)
}

proof fn lemma_chi_bits(b: u64, p: u64, q: u64, r: u64, n: u64, c: u64)
    by (bit_vector)
    ensures
        0u64 ^ 0xffff_ffff_ffff_ffffu64 ^ b == !b,
        0u64 ^ b == b,
        b ^ 0 == b,
        ((p & q) == r ^ n) == ((p & q) ^ r ^ n == 0),
        ((p & q) == r ^ n ^ c) == ((p & q) ^ r ^ n ^ c == 0),
        0xffff_ffff_ffff_ffffu64 ^ b == !b,
{
}

proof fn lemma_operand_concat(words: Seq<Word>, t: ShiftedValueIndex, op: Seq<ShiftedValueIndex>)
    ensures
        operand_value(words, seq![t] + op) == term_value(words, t) ^ operand_value(words, op),
    decreases op.len(),
{
    let all = seq![t] + op;
    lemma_chi_bits(term_value(words, t), 0, 0, 0, 0, 0);
    if op.len() == 0 {
        assert(all.drop_last() =~= Seq::<ShiftedValueIndex>::empty());
        assert(all.last() == t);
        assert(operand_value(words, all.drop_last()) == 0);
    } else {
        assert(all.drop_last() =~= seq![t] + op.drop_last());
        assert(all.last() == op.last());
        lemma_operand_concat(words, t, op.drop_last());
        lemma_xor_assoc(
            term_value(words, t),
            operand_value(words, op.drop_last()),
            term_value(words, op.last()),
        );
    }
}

/// Exclusive or is associative.
pub(crate) proof fn lemma_xor_assoc(a: u64, b: u64, c: u64)
    by (bit_vector)
    ensures
        (a ^ b) ^ c == a ^ (b ^ c),
        0u64 & 0u64 == 0u64,
{
}

/// Where the corrections fit, a chi row holds exactly where its residual vanishes.
proof fn lemma_chi_row(c: AndConstraint, words: Seq<Word>, p: int, r: int, l: int)
    requires
        is_chi_row(c, 32, p, r, l),
        starts_with_constants(words),
        corrections_fit(words, 32, p, r),
        0 <= p,
        0 <= r < 24,
        0 <= l < 25,
        32 + 800 * p + 800 <= u32::MAX,
    ensures
        and_holds(words, c) == (residual_word(
            pre_chi_of(block_state(words, 32, p, r)),
            block_state(words, 32, p, r + 1),
            r,
            l,
        ) == 0),
{
    let pre = pre_chi_of(block_state(words, 32, p, r));
    let next = block_state(words, 32, p, r + 1);
    lemma_virtual_b_is_pre_chi(words, 32, p, r, right_of(l, 1));
    lemma_virtual_b_is_pre_chi(words, 32, p, r, right_of(l, 2));
    lemma_virtual_b_is_pre_chi(words, 32, p, r, l);
    // a = !pre[l+1]
    lemma_operand_concat(words, plain_term_of(0), virtual_b_terms(32, p, r, right_of(l, 1)));
    lemma_rotl_term(words, 0, 0);
    assert(words[0] == constant_words()[0]);
    let o = operands_of(pre, l);
    let rc = ROUND_CONSTANTS[r];
    lemma_chi_bits(pre[right_of(l, 1)], o.p, o.q, o.r, next[l], rc);
    assert(operand_value(words, c.a@) == o.p);
    // c = pre[l] + next[l] + iota
    let b = virtual_b_terms(32, p, r, l);
    let bn = b.push(plain_term_of(32 + slot(p, r + 1, l)));
    assert(bn.drop_last() =~= b);
    lemma_rotl_term(words, 32 + slot(p, r + 1, l), 0);
    assert(operand_value(words, bn) == o.r ^ next[l]);
    if l == 0 {
        let bc = bn.push(plain_term_of(1 + r));
        assert(bc.drop_last() =~= bn);
        lemma_rotl_term(words, 1 + r, 0);
        assert(words[1 + r] == constant_words()[1 + r]);
        assert(operand_value(words, bc) == o.r ^ next[l] ^ rc);
    }
}

/// Whether the rows are the chi rows of `n` permutations, in the order permutation, round, lane.
pub open spec fn are_chi_rows(rows: Seq<AndConstraint>, base: int, n: int) -> bool {
    &&& rows.len() == 600 * n
    &&& forall|i: int|
        0 <= i < 600 * n ==> is_chi_row(#[trigger] rows[i], base, i / 600, (i % 600) / 25, i % 25)
}

/// Row `600 p + 25 r + l` of the chi rows reads the lanes of round `r` of permutation `p`: with the
/// first word added to the first factor, and in lane zero word `1 + r` added to the product.
pub proof fn lemma_chi_rows_read(
    rows: Seq<AndConstraint>,
    words: Seq<Word>,
    base: int,
    n: int,
    p: int,
    r: int,
    l: int,
)
    requires
        0 <= base,
        0 <= p < n,
        0 <= r < 24,
        0 <= l < 25,
        base + 800 * n <= u32::MAX,
        are_chi_rows(rows, base, n),
        corrections_fit(words, base, p, r),
    ensures
        ({
            let c = rows[600 * p + 25 * r + l];
            let pre = pre_chi_of(block_state(words, base, p, r));
            let out = pre[l] ^ block_state(words, base, p, r + 1)[l];
            &&& operand_value(words, c.a@) == words[0].0 ^ pre[right_of(l, 1)]
            &&& operand_value(words, c.b@) == pre[right_of(l, 2)]
            &&& operand_value(words, c.c@) == (if l == 0 {
                out ^ words[1 + r].0
            } else {
                out
            })
        }),
{
    let i = 600 * p + 25 * r + l;
    assert(i / 600 == p && (i % 600) / 25 == r && i % 25 == l);
    let c = rows[i];
    assert(is_chi_row(c, base, i / 600, (i % 600) / 25, i % 25));
    lemma_virtual_b_is_pre_chi(words, base, p, r, right_of(l, 1));
    lemma_virtual_b_is_pre_chi(words, base, p, r, right_of(l, 2));
    lemma_virtual_b_is_pre_chi(words, base, p, r, l);
    lemma_operand_concat(words, plain_term_of(0), virtual_b_terms(base, p, r, right_of(l, 1)));
    lemma_rotl_term(words, 0, 0);
    let b = virtual_b_terms(base, p, r, l);
    let bn = b.push(plain_term_of(base + slot(p, r + 1, l)));
    assert(bn.drop_last() =~= b);
    lemma_rotl_term(words, base + slot(p, r + 1, l), 0);
    let pre = pre_chi_of(block_state(words, base, p, r));
    let next = block_state(words, base, p, r + 1);
    assert(next[l] == words[base + slot(p, r + 1, l)].0);
    assert(operand_value(words, c.a@) == words[0].0 ^ pre[right_of(l, 1)]);
    assert(operand_value(words, bn) == pre[l] ^ next[l]);
    if l == 0 {
        let bc = bn.push(plain_term_of(1 + r));
        assert(bc.drop_last() =~= bn);
        lemma_rotl_term(words, 1 + r, 0);
        assert(operand_value(words, bc) == pre[l] ^ next[l] ^ words[1 + r].0);
    }
}

/// The rows of one round block hold exactly where the two committed blocks are joined by the
/// round and the corrections fit.
pub proof fn lemma_round_rows(rows: Seq<AndConstraint>, words: Seq<Word>, p: int, r: int)
    requires
        rows.len() == 32,
        forall|s: int| 0 <= s < 32 ==> is_block_row(#[trigger] rows[s], p, r, s),
        starts_with_constants(words),
        0 <= p,
        0 <= r < 24,
        32 + 800 * p + 800 <= u32::MAX,
    ensures
        (forall|s: int| 0 <= s < 32 ==> and_holds(words, #[trigger] rows[s])) == round_fits(
            words,
            p,
            r,
        ),
{
    let here = block_state(words, 32, p, r);
    let next = block_state(words, 32, p, r + 1);
    let pre = pre_chi_of(here);
    assert(pre.len() == 25) by {
        reveal(pre_chi_of);
    }
    assert forall|x: int| 0 <= x < 5 implies and_holds(words, #[trigger] rows[25 + x]) == (words[32
        + slot(p, r, 25 + x)].0 == theta_word(here, x)) by {
        assert(is_block_row(rows[25 + x], p, r, 25 + x));
        lemma_d_row(rows[25 + x], words, 32, p, r, x);
    }
    lemma_residual_zero_iff_round(pre, next, r);
    if forall|s: int| 0 <= s < 32 ==> and_holds(words, #[trigger] rows[s]) {
        assert forall|x: int| 0 <= x < 5 implies (#[trigger] words[32 + slot(p, r, 25 + x)]).0
            == theta_word(here, x) by {
            assert(and_holds(words, rows[25 + x]));
        }
        assert forall|l: int| 0 <= l < 25 implies #[trigger] residual_word(pre, next, r, l) == 0 by {
            assert(and_holds(words, rows[l]));
            assert(is_block_row(rows[l], p, r, l));
            lemma_chi_row(rows[l], words, p, r, l);
        }
    }
    if round_fits(words, p, r) {
        assert forall|s: int| 0 <= s < 32 implies and_holds(words, #[trigger] rows[s]) by {
            assert(is_block_row(rows[s], p, r, s));
            if s < 25 {
                lemma_chi_row(rows[s], words, p, r, s);
                assert(residual_word(pre, next, r, s) == 0);
            } else if s < 30 {
                let x = s - 25;
                assert(words[32 + slot(p, r, 25 + x)].0 == theta_word(here, x));
                assert(and_holds(words, rows[25 + x]));
            } else {
                lemma_empty_row(rows[s], words);
            }
        }
    }
}

proof fn lemma_empty_row(c: AndConstraint, words: Seq<Word>)
    requires
        is_empty_and(c),
    ensures
        and_holds(words, c),
{
    lemma_xor_assoc(0, 0, 0);
}

/// The constraint system holds of words that start with the public constants exactly where every
/// round of every permutation fits: each committed state is followed by the state that the round
/// makes of it.
#[verifier::spinoff_prover]
#[verifier::rlimit(60)]
pub proof fn lemma_constraint_system_iff_rounds(cs: ConstraintSystem, words: Seq<Word>, n: int)
    requires
        0 <= n,
        32 + 800 * n <= u32::MAX,
        are_block_rows(cs.and_constraints@, n),
        is_padded_mul(Seq::empty(), cs.mul_constraints@),
        starts_with_constants(words),
    ensures
        cs.satisfied_by(words) == (forall|p: int, r: int|
            0 <= p < n && 0 <= r < 24 ==> #[trigger] round_fits(words, p, r)),
{
    let rows = cs.and_constraints@;
    lemma_ceil_pow2((768 * n) as nat);
    assert forall|p: int, r: int| 0 <= p < n && 0 <= r < 24 implies #[trigger] round_fits(words, p, r)
        == (forall|i: int| 768 * p + 32 * r <= i < 768 * p + 32 * r + 32 ==> and_holds(
        words,
        #[trigger] rows[i],
    )) by {
        let base = 768 * p + 32 * r;
        let block = rows.subrange(base, base + 32);
        assert forall|s: int| 0 <= s < 32 implies is_block_row(#[trigger] block[s], p, r, s) by {
            let i = base + s;
            assert(i / 768 == p && (i % 768) / 32 == r && i % 32 == s);
            assert(is_block_row(rows[i], i / 768, (i % 768) / 32, i % 32));
        }
        lemma_round_rows(block, words, p, r);
        if forall|i: int| base <= i < base + 32 ==> and_holds(words, #[trigger] rows[i]) {
            assert forall|s: int| 0 <= s < 32 implies and_holds(words, #[trigger] block[s]) by {
                assert(and_holds(words, rows[base + s]));
            }
        }
        if round_fits(words, p, r) {
            assert forall|i: int| base <= i < base + 32 implies and_holds(
                words,
                #[trigger] rows[i],
            ) by {
                assert(and_holds(words, block[i - base]));
            }
        }
    }
    assert forall|i: int| 0 <= i < cs.mul_constraints@.len() implies mul_holds(
        words,
        #[trigger] cs.mul_constraints@[i],
    ) by {
        assert(is_empty_mul(cs.mul_constraints@[i]));
        assert(0u64 * 0u64 == 0) by (nonlinear_arith);
    }
    if forall|p: int, r: int| 0 <= p < n && 0 <= r < 24 ==> #[trigger] round_fits(words, p, r) {
        assert forall|i: int| 0 <= i < rows.len() implies and_holds(words, #[trigger] rows[i]) by {
            if i < 768 * n {
                let (p, r) = (i / 768, (i % 768) / 32);
                assert(round_fits(words, p, r));
            } else {
                lemma_empty_row(rows[i], words);
            }
        }
    }
}

/// The constraint system is satisfied by the value vector of every batch of well-formed traces.
pub proof fn lemma_constraint_system_complete(cs: ConstraintSystem, traces: Seq<PermutationTrace>)
    requires
        32 + 800 * traces.len() <= u32::MAX,
        are_block_rows(cs.and_constraints@, traces.len() as int),
        is_padded_mul(Seq::empty(), cs.mul_constraints@),
        forall|p: int| 0 <= p < traces.len() ==> (#[trigger] traces[p]).wf(),
    ensures
        cs.satisfied_by(
            padded_words(
                public_words(),
                committed_words(traces),
                ceil_pow2(32 + 800 * traces.len()),
            ),
        ),
{
    let total = ceil_pow2(32 + 800 * traces.len());
    lemma_ceil_pow2(32 + 800 * traces.len());
    let words = padded_words(public_words(), committed_words(traces), total);
    assert(starts_with_constants(words));
    assert forall|p: int, r: int|
        0 <= p < traces.len() && 0 <= r < 24 implies #[trigger] round_fits(words, p, r) by {
        lemma_honest_block(traces, public_words(), total, p, r);
        lemma_honest_block(traces, public_words(), total, p, r + 1);
        assert(traces[p].wf());
        assert(is_round_trace(traces[p].rounds[r], r));
        if r < 23 {
            assert(traces[p].rounds[r].output@ == traces[p].rounds[r + 1].input@);
        }
    }
    lemma_constraint_system_iff_rounds(cs, words, traces.len() as int);
}

/// Words that satisfy the constraint system hold the Keccak permutation of their first block in
/// their last block.
pub proof fn lemma_constraint_system_sound(cs: ConstraintSystem, words: Seq<Word>, n: int, p: int, r: nat)
    requires
        0 <= p < n,
        r <= 24,
        32 + 800 * n <= u32::MAX,
        are_block_rows(cs.and_constraints@, n),
        is_padded_mul(Seq::empty(), cs.mul_constraints@),
        starts_with_constants(words),
        cs.satisfied_by(words),
    ensures
        block_state(words, 32, p, r as int) == super::trace::rounds_state(
            block_state(words, 32, p, 0),
            r,
        ),
    decreases r,
{
    lemma_constraint_system_iff_rounds(cs, words, n);
    if r > 0 {
        lemma_constraint_system_sound(cs, words, n, p, (r - 1) as nat);
        assert(round_fits(words, p, r - 1));
    }
}

} // verus!
