//! Operands over the committed Keccak witness: the virtual pre-chi lanes and the theta
//! corrections, lowered to shifted words.
use super::constants::{lane_x, RHO_OFFSETS};
use super::layout;
use super::layout::slot;
use super::trace::{column, rho_pi_source};
use crate::circuit::word::rotl64;
use crate::constraint_system::{
    operand_value, term_value, Operand, ShiftVariant, ShiftedValueIndex, ValueIndex, Word,
};
use vstd::prelude::*;

verus! {

/// Source lane of each virtual pre-chi `B` lane after rho and pi.
pub const RHO_PI_PREIMAGE: [usize; 25] = [
    0, 6, 12, 18, 24,
    3, 9, 10, 16, 22,
    1, 7, 13, 19, 20,
    4, 5, 11, 17, 23,
    2, 8, 14, 15, 21,
];

/// The table lists the preimages under `(x, y) -> (y, 2x + 3y)`.
pub proof fn lemma_rho_pi_preimage(b: int)
    requires
        0 <= b < 25,
    ensures
        RHO_PI_PREIMAGE[b] == rho_pi_source(b),
        RHO_PI_PREIMAGE[b] < 25,
        ({
            let x = RHO_PI_PREIMAGE[b] % 5;
            let y = RHO_PI_PREIMAGE[b] / 5;
            b == y as int + 5 * ((2 * x + 3 * y) as int % 5)
        }),
        RHO_OFFSETS[rho_pi_source(b)] < 64,
{
}

/// A term that rotates the word at `index` to the left by `amount`.
pub open spec fn rotl_term_of(index: int, amount: int) -> ShiftedValueIndex {
    if amount % 64 == 0 {
        ShiftedValueIndex {
            value_index: ValueIndex(index as u32),
            shift_variant: ShiftVariant::Sll,
            amount: 0,
        }
    } else {
        ShiftedValueIndex {
            value_index: ValueIndex(index as u32),
            shift_variant: ShiftVariant::Rotr,
            amount: (64 - amount % 64) as usize,
        }
    }
}

/// A term that is the word at `index`.
pub open spec fn plain_term_of(index: int) -> ShiftedValueIndex {
    rotl_term_of(index, 0)
}

/// The terms of the virtual lane `B_r[b]`.
pub open spec fn virtual_b_terms(base: int, p: int, r: int, b: int) -> Seq<ShiftedValueIndex> {
    let source = rho_pi_source(b);
    let rho = RHO_OFFSETS[source] as int;
    seq![
        rotl_term_of(base + slot(p, r, source), rho),
        rotl_term_of(base + slot(p, r, 25 + source % 5), rho),
    ]
}

/// The terms of `D_r[x] + sum_y A_r[x-1,y] + sum_y rotl_1(A_r[x+1,y])`.
pub open spec fn d_correctness_terms(base: int, p: int, r: int, x: int) -> Seq<ShiftedValueIndex> {
    let left = (x + 4) % 5;
    let right = (x + 1) % 5;
    seq![
        plain_term_of(base + slot(p, r, 25 + x)),
        plain_term_of(base + slot(p, r, left)),
        plain_term_of(base + slot(p, r, left + 5)),
        plain_term_of(base + slot(p, r, left + 10)),
        plain_term_of(base + slot(p, r, left + 15)),
        plain_term_of(base + slot(p, r, left + 20)),
        rotl_term_of(base + slot(p, r, right), 1),
        rotl_term_of(base + slot(p, r, right + 5), 1),
        rotl_term_of(base + slot(p, r, right + 10), 1),
        rotl_term_of(base + slot(p, r, right + 15), 1),
        rotl_term_of(base + slot(p, r, right + 20), 1),
    ]
}

/// Converts a word index to a `ValueIndex`.
pub fn value_index(index: usize) -> (r: ValueIndex)
    requires
        index <= u32::MAX,
    ensures
        r.0 == index,
{
    ValueIndex(index as u32)
}

/// Converts a word index beyond `base_index` to a `ValueIndex`.
pub fn value_index_at(base_index: usize, index: usize) -> (r: ValueIndex)
    requires
        base_index + index <= u32::MAX,
    ensures
        r.0 == base_index + index,
{
    ValueIndex((base_index + index) as u32)
}

/// A shifted term that rotates a committed word left by `amount`.
pub fn rotl_term(index: usize, amount: u32) -> (r: ShiftedValueIndex)
    requires
        index <= u32::MAX,
    ensures
        r == rotl_term_of(index as int, amount as int),
{
    let amount: usize = (amount % 64) as usize;
    let index = value_index(index);
    if amount == 0 {
        ShiftedValueIndex::plain(index)
    } else {
        ShiftedValueIndex::rotr(index, 64 - amount)
    }
}

/// The virtual `B_r[b_lane]` operand, lowered to committed `A` and `D` terms:
///
/// ```text
/// B_r[pi(x,y)] = rotl_{rho[x,y]}(A_r[x,y] + D_r[x])
/// ```
pub fn virtual_b_operand(permutation: usize, round: usize, b_lane: usize) -> (r: Operand)
    requires
        b_lane < 25,
        round < 24,
        800 * permutation + 800 <= u32::MAX,
    ensures
        r@ == virtual_b_terms(0, permutation as int, round as int, b_lane as int),
{
    virtual_b_operand_at(0, permutation, round, b_lane)
}

/// The virtual `B_r[b_lane]` operand where the witness starts at `base_index`.
pub fn virtual_b_operand_at(
    base_index: usize,
    permutation: usize,
    round: usize,
    b_lane: usize,
) -> (r: Operand)
    requires
        b_lane < 25,
        round < 24,
        base_index + 800 * permutation + 800 <= u32::MAX,
    ensures
        r@ == virtual_b_terms(base_index as int, permutation as int, round as int, b_lane as int),
{
    proof {
        lemma_rho_pi_preimage(b_lane as int);
    }
    let source_lane: usize = RHO_PI_PREIMAGE[b_lane];
    let source_x: usize = lane_x(source_lane);
    let rho: u32 = RHO_OFFSETS[source_lane];
    let mut operand: Operand = Vec::new();
    operand.push(rotl_term(base_index + layout::a_index(permutation, round, source_lane), rho));
    operand.push(rotl_term(base_index + layout::d_index(permutation, round, source_x), rho));
    assert(operand@ =~= virtual_b_terms(
        base_index as int,
        permutation as int,
        round as int,
        b_lane as int,
    ));
    operand
}

/// The linear operand that vanishes where `D_r[x]` is the theta correction for column `x`:
///
/// ```text
/// D_r[x] + sum_y A_r[x-1,y] + sum_y rotl_1(A_r[x+1,y]) = 0
/// ```
pub fn d_correctness_operand(permutation: usize, round: usize, x: usize) -> (r: Operand)
    requires
        x < 5,
        round < 24,
        800 * permutation + 800 <= u32::MAX,
    ensures
        r@ == d_correctness_terms(0, permutation as int, round as int, x as int),
{
    d_correctness_operand_at(0, permutation, round, x)
}

/// The theta-correction operand where the witness starts at `base_index`.
pub fn d_correctness_operand_at(
    base_index: usize,
    permutation: usize,
    round: usize,
    x: usize,
) -> (r: Operand)
    requires
        x < 5,
        round < 24,
        base_index + 800 * permutation + 800 <= u32::MAX,
    ensures
        r@ == d_correctness_terms(base_index as int, permutation as int, round as int, x as int),
{
    let left_x: usize = (x + 4) % 5;
    let right_x: usize = (x + 1) % 5;
    let ghost want = d_correctness_terms(
        base_index as int,
        permutation as int,
        round as int,
        x as int,
    );
    let mut operand: Operand = Vec::new();
    operand.push(rotl_term(base_index + layout::d_index(permutation, round, x), 0));
    for y in 0..5
        invariant
            round < 24,
            left_x < 5,
            left_x == (x + 4) % 5,
            base_index + 800 * permutation + 800 <= u32::MAX,
            want == d_correctness_terms(
                base_index as int,
                permutation as int,
                round as int,
                x as int,
            ),
            operand@ =~= want.take(1 + y),
    {
        operand.push(rotl_term(base_index + layout::a_index(permutation, round, left_x + 5 * y), 0));
        assert(want[1 + y] == plain_term_of(base_index + slot(
            permutation as int,
            round as int,
            left_x + 5 * y,
        )));
    }
    for y in 0..5
        invariant
            round < 24,
            right_x < 5,
            right_x == (x + 1) % 5,
            base_index + 800 * permutation + 800 <= u32::MAX,
            want == d_correctness_terms(
                base_index as int,
                permutation as int,
                round as int,
                x as int,
            ),
            operand@ =~= want.take(6 + y),
    {
        operand.push(
            rotl_term(base_index + layout::a_index(permutation, round, right_x + 5 * y), 1),
        );
        assert(want[6 + y] == rotl_term_of(
            base_index + slot(permutation as int, round as int, right_x + 5 * y),
            1,
        ));
    }
    assert(operand@ =~= want);
    operand
}

proof fn lemma_rotl_bits(a: u64, b: u64, n: u32)
    by (bit_vector)
    requires
        n < 64,
    ensures
        rotl64(a ^ b, n) == rotl64(a, n) ^ rotl64(b, n),
        a << 0u64 == a,
        0u64 ^ a == a,
{
}

proof fn lemma_theta_bits(
    d: u64,
    a0: u64,
    a1: u64,
    a2: u64,
    a3: u64,
    a4: u64,
    b0: u64,
    b1: u64,
    b2: u64,
    b3: u64,
    b4: u64,
)
    by (bit_vector)
    ensures
        d ^ a0 ^ a1 ^ a2 ^ a3 ^ a4 ^ rotl64(b0, 1) ^ rotl64(b1, 1) ^ rotl64(b2, 1) ^ rotl64(b3, 1)
            ^ rotl64(b4, 1) == d ^ ((a0 ^ a1 ^ a2 ^ a3 ^ a4) ^ rotl64(b0 ^ b1 ^ b2 ^ b3 ^ b4, 1)),
{
}

/// A rotation term stands for the rotated word.
pub proof fn lemma_rotl_term(words: Seq<Word>, index: int, amount: u32)
    requires
        0 <= index <= u32::MAX,
        amount < 64,
    ensures
        term_value(words, rotl_term_of(index, amount as int)) == rotl64(
            words[index].0,
            amount,
        ),
{
    lemma_rotl_bits(words[index].0, 0, 0);
}

/// The virtual lane stands for the rotated sum of its two committed words.
pub proof fn lemma_virtual_b(words: Seq<Word>, base: int, p: int, r: int, b: int)
    requires
        0 <= base,
        0 <= p,
        0 <= r < 24,
        0 <= b < 25,
        base + 800 * p + 800 <= u32::MAX,
    ensures
        operand_value(words, virtual_b_terms(base, p, r, b)) == rotl64(
            words[base + slot(p, r, rho_pi_source(b))].0 ^ words[base + slot(
                p,
                r,
                25 + rho_pi_source(b) % 5,
            )].0,
            RHO_OFFSETS[rho_pi_source(b)],
        ),
{
    lemma_rho_pi_preimage(b);
    let source = rho_pi_source(b);
    let rho = RHO_OFFSETS[source];
    let (i, j) = (base + slot(p, r, source), base + slot(p, r, 25 + source % 5));
    let op = virtual_b_terms(base, p, r, b);
    lemma_rotl_term(words, i, rho);
    lemma_rotl_term(words, j, rho);
    lemma_rotl_bits(words[i].0, words[j].0, rho);
    lemma_rotl_bits(rotl64(words[i].0, rho), 0, 0);
    assert(op.drop_last() =~= seq![op[0]]);
    assert(op.drop_last().drop_last() =~= Seq::<ShiftedValueIndex>::empty());
    assert(operand_value(words, op.drop_last()) == operand_value(
        words,
        op.drop_last().drop_last(),
    ) ^ term_value(words, op[0]));
}

/// The lanes of a committed block.
pub open spec fn block_state(words: Seq<Word>, base: int, p: int, r: int) -> Seq<u64> {
    Seq::new(25, |i: int| words[base + slot(p, r, i)].0)
}

proof fn lemma_operand_step(words: Seq<Word>, op: Seq<ShiftedValueIndex>, k: int)
    requires
        0 <= k < op.len(),
    ensures
        operand_value(words, op.take(k + 1)) == operand_value(words, op.take(k)) ^ term_value(
            words,
            op[k],
        ),
{
    assert(op.take(k + 1).drop_last() =~= op.take(k));
}

/// The theta-correction operand stands for the difference between the committed correction and
/// the one that the committed lanes ask for.
pub proof fn lemma_d_correctness(words: Seq<Word>, base: int, p: int, r: int, x: int)
    requires
        0 <= base,
        0 <= p,
        0 <= r < 24,
        0 <= x < 5,
        base + 800 * p + 800 <= u32::MAX,
    ensures
        operand_value(words, d_correctness_terms(base, p, r, x)) == words[base + slot(
            p,
            r,
            25 + x,
        )].0 ^ super::trace::theta_word(block_state(words, base, p, r), x),
{
    let op = d_correctness_terms(base, p, r, x);
    let s = block_state(words, base, p, r);
    let left = (x + 4) % 5;
    let right = (x + 1) % 5;
    assert(op.take(0) =~= Seq::<ShiftedValueIndex>::empty());
    assert(op.take(11) =~= op);
    lemma_operand_step(words, op, 0);
    lemma_operand_step(words, op, 1);
    lemma_operand_step(words, op, 2);
    lemma_operand_step(words, op, 3);
    lemma_operand_step(words, op, 4);
    lemma_operand_step(words, op, 5);
    lemma_operand_step(words, op, 6);
    lemma_operand_step(words, op, 7);
    lemma_operand_step(words, op, 8);
    lemma_operand_step(words, op, 9);
    lemma_operand_step(words, op, 10);
    let d = words[base + slot(p, r, 25 + x)].0;
    lemma_rotl_term(words, base + slot(p, r, 25 + x), 0);
    lemma_rotl_term(words, base + slot(p, r, left), 0);
    lemma_rotl_term(words, base + slot(p, r, left + 5), 0);
    lemma_rotl_term(words, base + slot(p, r, left + 10), 0);
    lemma_rotl_term(words, base + slot(p, r, left + 15), 0);
    lemma_rotl_term(words, base + slot(p, r, left + 20), 0);
    lemma_rotl_term(words, base + slot(p, r, right), 1);
    lemma_rotl_term(words, base + slot(p, r, right + 5), 1);
    lemma_rotl_term(words, base + slot(p, r, right + 10), 1);
    lemma_rotl_term(words, base + slot(p, r, right + 15), 1);
    lemma_rotl_term(words, base + slot(p, r, right + 20), 1);
    lemma_rotl_bits(d, 0, 0);
    lemma_theta_bits(
        d,
        s[left],
        s[left + 5],
        s[left + 10],
        s[left + 15],
        s[left + 20],
        s[right],
        s[right + 5],
        s[right + 10],
        s[right + 15],
        s[right + 20],
    );
}

} // verus!
