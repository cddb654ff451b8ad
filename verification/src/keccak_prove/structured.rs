//! The matrix polynomial of the Keccak constraint system, streamed from the fixed pattern of its
//! rows instead of materialized operands.
use super::bit_ntt::{lemma_chi_operand_lanes, CHI_OPERAND_LANES};
use super::constants::{lane_x, RHO_OFFSETS};
use super::layout;
use super::layout::slot;
use super::shift_operands::{
    d_correctness_terms, lemma_rho_pi_preimage, plain_term_of, rotl_term_of, virtual_b_terms,
    RHO_PI_PREIMAGE,
};
use super::trace::right_of;
use super::v0::{
    are_block_rows, chi_a_terms, chi_c_terms, committed_witness_base, is_block_row, ALL_ONE_INDEX,
    D_CONSTRAINT_OFFSET, ROUND_CONSTANTS_OFFSET,
};
use crate::constraint_system::{
    is_empty_and, AndConstraint, Operand, ShiftVariant, ShiftedValueIndex, ValueIndex,
};
use crate::field::BinaryField;
use crate::math::lagrange::{lagrange_evals_scalars, lagrange_of};
use crate::math::multilinear::eq_ind_partial_eval_scalars;
use crate::math::subspace::{subspace_points, BinarySubspace};
use crate::math::sums::{
    keep_if, lemma_distr, lemma_sum_ext, lemma_sum_plus, lemma_sum_scale, lemma_sum_split,
    lemma_sum_tail, lemma_zero, powers_from_one, sum,
};
use crate::verify::monster::{
    batched_matrix, cell, combine_table, has_shift, lemma_combined_ext, lemma_monster_ext,
    matrix_of, matrix_row, monster_value, table_rows, term_weight, terms_or_none, zero_table,
    OperatorData,
};
use vstd::arithmetic::power2::{lemma2_to64, pow2};
use vstd::prelude::*;

verus! {

/// The terms of operand `m` of row `row` of the constraint system of `n` permutations.
pub open spec fn block_terms(n: int, m: int, row: int) -> Seq<ShiftedValueIndex> {
    let (p, r, s) = (row / 768, (row % 768) / 32, row % 32);
    if row >= 768 * n {
        Seq::empty()
    } else if s < 25 {
        if m == 0 {
            chi_a_terms(32, p, r, s)
        } else if m == 1 {
            virtual_b_terms(32, p, r, right_of(s, 2))
        } else {
            chi_c_terms(32, p, r, s)
        }
    } else if s < 30 && m == 2 {
        d_correctness_terms(32, p, r, s - 25)
    } else {
        Seq::empty()
    }
}

/// What an operand of a row adds to the table.
pub open spec fn share<F: BinaryField>(
    coeff: F,
    weight: F,
    op: Seq<ShiftedValueIndex>,
    ry: Seq<F>,
    v: int,
    a: int,
) -> F {
    coeff.times(weight.times(term_weight(op, ry, v, a)))
}

/// Whether `post` is the table `pre` with an operand's share added.
pub open spec fn added<F: BinaryField>(
    pre: Seq<F>,
    post: Seq<F>,
    coeff: F,
    weight: F,
    op: Seq<ShiftedValueIndex>,
    ry: Seq<F>,
) -> bool {
    &&& post.len() == 512
    &&& forall|v: int, a: int|
        0 <= v < 8 && 0 <= a < 64 ==> #[trigger] post[cell(v, a)] == pre[cell(v, a)].plus(
            share(coeff, weight, op, ry, v, a),
        )
}

proof fn lemma_term_weight_concat<F: BinaryField>(
    x: Seq<ShiftedValueIndex>,
    y: Seq<ShiftedValueIndex>,
    ry: Seq<F>,
    v: int,
    a: int,
)
    ensures
        term_weight(x + y, ry, v, a) == term_weight(x, ry, v, a).plus(term_weight(y, ry, v, a)),
{
    let xy = x + y;
    let f = |t: int| keep_if(has_shift(xy[t], v, a), ry[xy[t].value_index.0 as int]);
    let fx = |t: int| keep_if(has_shift(x[t], v, a), ry[x[t].value_index.0 as int]);
    let fy = |t: int| keep_if(has_shift(y[t], v, a), ry[y[t].value_index.0 as int]);
    lemma_sum_split(f, x.len(), y.len());
    lemma_sum_ext(f, fx, x.len());
    lemma_sum_ext(|t: int| f(x.len() + t), fy, y.len());
}

proof fn lemma_added_concat<F: BinaryField>(
    pre: Seq<F>,
    mid: Seq<F>,
    post: Seq<F>,
    coeff: F,
    weight: F,
    x: Seq<ShiftedValueIndex>,
    y: Seq<ShiftedValueIndex>,
    ry: Seq<F>,
)
    requires
        added(pre, mid, coeff, weight, x, ry),
        added(mid, post, coeff, weight, y, ry),
    ensures
        added(pre, post, coeff, weight, x + y, ry),
{
    assert forall|v: int, a: int| 0 <= v < 8 && 0 <= a < 64 implies #[trigger] post[cell(v, a)]
        == pre[cell(v, a)].plus(share(coeff, weight, x + y, ry, v, a)) by {
        let (tx, ty) = (term_weight(x, ry, v, a), term_weight(y, ry, v, a));
        lemma_term_weight_concat(x, y, ry, v, a);
        lemma_distr(tx, ty, weight);
        lemma_distr(weight.times(tx), weight.times(ty), coeff);
        assert(mid[cell(v, a)] == pre[cell(v, a)].plus(share(coeff, weight, x, ry, v, a)));
        F::lemma_plus(
            pre[cell(v, a)],
            share(coeff, weight, x, ry, v, a),
            share(coeff, weight, y, ry, v, a),
        );
    }
}

fn accumulate_shifted_term<F: BinaryField>(
    evals: &mut Vec<F>,
    operand_coeff: F,
    row_weight: F,
    value_index: usize,
    shift_variant: ShiftVariant,
    amount: usize,
    r_y_tensor: &[F],
)
    requires
        old(evals)@.len() == 512,
        value_index < r_y_tensor@.len(),
        value_index <= u32::MAX,
        amount < 64,
    ensures
        added(
            old(evals)@,
            final(evals)@,
            operand_coeff,
            row_weight,
            seq![
                ShiftedValueIndex {
                    value_index: ValueIndex(value_index as u32),
                    shift_variant,
                    amount,
                },
            ],
            r_y_tensor@,
        ),
{
    let ghost pre = evals@;
    let at: usize = 64 * shift_variant.shift_id() + amount;
    evals[at] = evals[at].add(operand_coeff.mul(row_weight.mul(r_y_tensor[value_index])));
    proof {
        let t = ShiftedValueIndex {
            value_index: ValueIndex(value_index as u32),
            shift_variant,
            amount,
        };
        let op = seq![t];
        let ry = r_y_tensor@;
        assert forall|v: int, a: int| 0 <= v < 8 && 0 <= a < 64 implies #[trigger] evals@[cell(v, a)]
            == pre[cell(v, a)].plus(share(operand_coeff, row_weight, op, ry, v, a)) by {
            let f = |k: int| keep_if(has_shift(op[k], v, a), ry[op[k].value_index.0 as int]);
            assert(sum(f, 1) == sum(f, 0).plus(f(0)));
            lemma_zero(f(0));
            assert(term_weight(op, ry, v, a) == f(0));
            lemma_zero(row_weight);
            lemma_zero(operand_coeff);
            lemma_zero(pre[cell(v, a)]);
            if has_shift(t, v, a) {
                assert(cell(v, a) == at);
            } else {
                assert(cell(v, a) != at);
            }
        }
    }
}

fn accumulate_plain_term<F: BinaryField>(
    evals: &mut Vec<F>,
    operand_coeff: F,
    row_weight: F,
    value_index: usize,
    r_y_tensor: &[F],
)
    requires
        old(evals)@.len() == 512,
        value_index < r_y_tensor@.len(),
        value_index <= u32::MAX,
    ensures
        added(
            old(evals)@,
            final(evals)@,
            operand_coeff,
            row_weight,
            seq![plain_term_of(value_index as int)],
            r_y_tensor@,
        ),
{
    accumulate_shifted_term(
        evals,
        operand_coeff,
        row_weight,
        value_index,
        ShiftVariant::Sll,
        0,
        r_y_tensor,
    );
}

fn accumulate_rotl_term<F: BinaryField>(
    evals: &mut Vec<F>,
    operand_coeff: F,
    row_weight: F,
    value_index: usize,
    amount: u32,
    r_y_tensor: &[F],
)
    requires
        old(evals)@.len() == 512,
        value_index < r_y_tensor@.len(),
        value_index <= u32::MAX,
    ensures
        added(
            old(evals)@,
            final(evals)@,
            operand_coeff,
            row_weight,
            seq![rotl_term_of(value_index as int, amount as int)],
            r_y_tensor@,
        ),
{
    let amount: usize = (amount % 64) as usize;
    if amount == 0 {
        accumulate_plain_term(evals, operand_coeff, row_weight, value_index, r_y_tensor);
    } else {
        accumulate_shifted_term(
            evals,
            operand_coeff,
            row_weight,
            value_index,
            ShiftVariant::Rotr,
            64 - amount,
            r_y_tensor,
        );
    }
}

fn accumulate_virtual_b_terms<F: BinaryField>(
    evals: &mut Vec<F>,
    operand_coeff: F,
    row_weight: F,
    permutation: usize,
    round: usize,
    b_lane: usize,
    r_y_tensor: &[F],
)
    requires
        old(evals)@.len() == 512,
        32 + 800 * permutation + 800 <= r_y_tensor@.len(),
        32 + 800 * permutation + 800 <= u32::MAX,
        round < 24,
        b_lane < 25,
    ensures
        added(
            old(evals)@,
            final(evals)@,
            operand_coeff,
            row_weight,
            virtual_b_terms(32, permutation as int, round as int, b_lane as int),
            r_y_tensor@,
        ),
{
    proof {
        lemma_rho_pi_preimage(b_lane as int);
    }
    let ghost e0 = evals@;
    let source_lane: usize = RHO_PI_PREIMAGE[b_lane];
    let source_x: usize = lane_x(source_lane);
    let rho: u32 = RHO_OFFSETS[source_lane];
    let i: usize = committed_witness_base() + layout::a_index(permutation, round, source_lane);
    let j: usize = committed_witness_base() + layout::d_index(permutation, round, source_x);
    accumulate_rotl_term(evals, operand_coeff, row_weight, i, rho, r_y_tensor);
    let ghost e1 = evals@;
    accumulate_rotl_term(evals, operand_coeff, row_weight, j, rho, r_y_tensor);
    proof {
        let (x, y) = (seq![rotl_term_of(i as int, rho as int)], seq![rotl_term_of(j as int, rho as int)]);
        lemma_added_concat(e0, e1, evals@, operand_coeff, row_weight, x, y, r_y_tensor@);
        assert(x + y =~= virtual_b_terms(32, permutation as int, round as int, b_lane as int));
    }
}

/// What a row adds to the table.
pub open spec fn row_share<F: BinaryField>(
    n: int,
    coeffs: Seq<F>,
    rx: Seq<F>,
    ry: Seq<F>,
    row: int,
    v: int,
    a: int,
) -> F {
    share(coeffs[0], rx[row], block_terms(n, 0, row), ry, v, a).plus(
        share(coeffs[1], rx[row], block_terms(n, 1, row), ry, v, a),
    ).plus(share(coeffs[2], rx[row], block_terms(n, 2, row), ry, v, a))
}

/// Whether `post` is the table `pre` with a row's share added.
pub open spec fn row_added<F: BinaryField>(
    pre: Seq<F>,
    post: Seq<F>,
    n: int,
    coeffs: Seq<F>,
    rx: Seq<F>,
    ry: Seq<F>,
    row: int,
) -> bool {
    &&& post.len() == 512
    &&& forall|v: int, a: int|
        0 <= v < 8 && 0 <= a < 64 ==> #[trigger] post[cell(v, a)] == pre[cell(v, a)].plus(
            row_share(n, coeffs, rx, ry, row, v, a),
        )
}

proof fn lemma_row_added<F: BinaryField>(
    e0: Seq<F>,
    e1: Seq<F>,
    e2: Seq<F>,
    e3: Seq<F>,
    n: int,
    coeffs: Seq<F>,
    rx: Seq<F>,
    ry: Seq<F>,
    row: int,
)
    requires
        added(e0, e1, coeffs[0], rx[row], block_terms(n, 0, row), ry),
        added(e1, e2, coeffs[1], rx[row], block_terms(n, 1, row), ry),
        added(e2, e3, coeffs[2], rx[row], block_terms(n, 2, row), ry),
    ensures
        row_added(e0, e3, n, coeffs, rx, ry, row),
{
    assert forall|v: int, a: int| 0 <= v < 8 && 0 <= a < 64 implies #[trigger] e3[cell(v, a)]
        == e0[cell(v, a)].plus(row_share(n, coeffs, rx, ry, row, v, a)) by {
        let s0 = share(coeffs[0], rx[row], block_terms(n, 0, row), ry, v, a);
        let s1 = share(coeffs[1], rx[row], block_terms(n, 1, row), ry, v, a);
        let s2 = share(coeffs[2], rx[row], block_terms(n, 2, row), ry, v, a);
        assert(e1[cell(v, a)] == e0[cell(v, a)].plus(s0));
        assert(e2[cell(v, a)] == e1[cell(v, a)].plus(s1));
        F::lemma_plus(e0[cell(v, a)], s0, s1);
        F::lemma_plus(e0[cell(v, a)], s0.plus(s1), s2);
    }
}

proof fn lemma_added_nothing<F: BinaryField>(e: Seq<F>, coeff: F, weight: F, ry: Seq<F>)
    requires
        e.len() == 512,
    ensures
        added(e, e, coeff, weight, Seq::empty(), ry),
{
    assert forall|v: int, a: int| 0 <= v < 8 && 0 <= a < 64 implies #[trigger] e[cell(v, a)]
        == e[cell(v, a)].plus(share(coeff, weight, Seq::empty(), ry, v, a)) by {
        lemma_zero(weight);
        lemma_zero(coeff);
        lemma_zero(e[cell(v, a)]);
    }
}

fn accumulate_chi_row<F: BinaryField>(
    evals: &mut Vec<F>,
    Ghost(n): Ghost<int>,
    coeffs: &[F],
    rx: &[F],
    permutation: usize,
    round: usize,
    lane_idx: usize,
    ry: &[F],
)
    requires
        old(evals)@.len() == 512,
        coeffs@.len() == 3,
        permutation < n,
        768 * n <= rx@.len(),
        32 + 800 * n <= ry@.len(),
        32 + 800 * n <= u32::MAX,
        round < 24,
        lane_idx < 25,
    ensures
        row_added(
            old(evals)@,
            final(evals)@,
            n,
            coeffs@,
            rx@,
            ry@,
            768 * permutation + 32 * round + lane_idx,
        ),
{
    let row: usize = constraint_row_index(permutation, round, lane_idx, rx.len());
    let ghost (p, r, l) = (permutation as int, round as int, lane_idx as int);
    proof {
        lemma_chi_operand_lanes(l);
        assert(row / 768 == p && (row % 768) / 32 == r && row % 32 == l);
    }
    let row_weight = rx[row];
    let (p_lane, q_lane, r_lane) = CHI_OPERAND_LANES[lane_idx];
    let ghost e0 = evals@;
    accumulate_plain_term(evals, coeffs[0], row_weight, ALL_ONE_INDEX, ry);
    let ghost e01 = evals@;
    accumulate_virtual_b_terms(evals, coeffs[0], row_weight, permutation, round, p_lane, ry);
    let ghost e1 = evals@;
    accumulate_virtual_b_terms(evals, coeffs[1], row_weight, permutation, round, q_lane, ry);
    let ghost e2 = evals@;
    accumulate_virtual_b_terms(evals, coeffs[2], row_weight, permutation, round, r_lane, ry);
    let ghost e21 = evals@;
    let next: usize = committed_witness_base() + layout::a_index(permutation, round + 1, lane_idx);
    accumulate_plain_term(evals, coeffs[2], row_weight, next, ry);
    let ghost e22 = evals@;
    if lane_idx == 0 {
        accumulate_plain_term(evals, coeffs[2], row_weight, ROUND_CONSTANTS_OFFSET + round, ry);
    }
    proof {
        let vb = virtual_b_terms(32, p, r, right_of(l, 1));
        lemma_added_concat(e0, e01, e1, coeffs@[0], row_weight, seq![plain_term_of(0)], vb, ry@);
        let vr = virtual_b_terms(32, p, r, l);
        let tn = seq![plain_term_of(32 + slot(p, r + 1, l))];
        lemma_added_concat(e2, e21, e22, coeffs@[2], row_weight, vr, tn, ry@);
        assert(vr + tn =~= vr.push(plain_term_of(32 + slot(p, r + 1, l))));
        if lane_idx == 0 {
            let tc = seq![plain_term_of(1 + r)];
            lemma_added_concat(e2, e22, evals@, coeffs@[2], row_weight, vr + tn, tc, ry@);
            assert(vr + tn + tc =~= chi_c_terms(32, p, r, l));
        } else {
            assert(vr + tn =~= chi_c_terms(32, p, r, l));
        }
        lemma_row_added(e0, e1, e2, evals@, n, coeffs@, rx@, ry@, row as int);
    }
}

fn constraint_row_index(permutation: usize, round: usize, slot: usize, rows: usize) -> (r: usize)
    requires
        round < 24,
        slot < 32,
        768 * permutation + 768 <= rows,
    ensures
        r == 768 * permutation + 32 * round + slot,
        r < rows,
{
    (permutation * 24 + round) * 32 + slot
}

#[verifier::spinoff_prover]
#[verifier::rlimit(50)]
fn accumulate_d_row<F: BinaryField>(
    evals: &mut Vec<F>,
    Ghost(n): Ghost<int>,
    coeffs: &[F],
    rx: &[F],
    permutation: usize,
    round: usize,
    x: usize,
    ry: &[F],
)
    requires
        old(evals)@.len() == 512,
        coeffs@.len() == 3,
        permutation < n,
        768 * n <= rx@.len(),
        32 + 800 * n <= ry@.len(),
        32 + 800 * n <= u32::MAX,
        round < 24,
        x < 5,
    ensures
        row_added(
            old(evals)@,
            final(evals)@,
            n,
            coeffs@,
            rx@,
            ry@,
            768 * permutation + 32 * round + 25 + x,
        ),
{
    let row: usize = constraint_row_index(permutation, round, D_CONSTRAINT_OFFSET + x, rx.len());
    let ghost (p, r) = (permutation as int, round as int);
    let ghost want = d_correctness_terms(32, p, r, x as int);
    proof {
        assert(row / 768 == p && (row % 768) / 32 == r && row % 32 == 25 + x);
    }
    let row_weight = rx[row];
    let coeff = coeffs[2];
    let ghost e0 = evals@;
    let d: usize = committed_witness_base() + layout::d_index(permutation, round, x);
    accumulate_plain_term(evals, coeff, row_weight, d, ry);
    assert(seq![plain_term_of(d as int)] =~= want.take(1));
    let left_x: usize = (x + 4) % 5;
    for y in 0..5
        invariant
            round < 24,
            left_x == (x + 4) % 5,
            p == permutation,
            r == round,
            permutation < n,
            32 + 800 * n <= ry@.len(),
            32 + 800 * n <= u32::MAX,
            want == d_correctness_terms(32, p, r, x as int),
            added(e0, evals@, coeff, row_weight, want.take(1 + y), ry@),
    {
        let ghost e = evals@;
        let i: usize = committed_witness_base() + layout::a_index(
            permutation,
            round,
            left_x + 5 * y,
        );
        accumulate_plain_term(evals, coeff, row_weight, i, ry);
        proof {
            let t = seq![plain_term_of(i as int)];
            lemma_added_concat(e0, e, evals@, coeff, row_weight, want.take(1 + y), t, ry@);
            assert(want[1 + y] == plain_term_of(i as int));
            assert(want.take(1 + y) + t =~= want.take(2 + y));
        }
    }
    let right_x: usize = (x + 1) % 5;
    for y in 0..5
        invariant
            round < 24,
            right_x == (x + 1) % 5,
            p == permutation,
            r == round,
            permutation < n,
            32 + 800 * n <= ry@.len(),
            32 + 800 * n <= u32::MAX,
            want == d_correctness_terms(32, p, r, x as int),
            added(e0, evals@, coeff, row_weight, want.take(6 + y), ry@),
    {
        let ghost e = evals@;
        let i: usize = committed_witness_base() + layout::a_index(
            permutation,
            round,
            right_x + 5 * y,
        );
        accumulate_rotl_term(evals, coeff, row_weight, i, 1, ry);
        proof {
            let t = seq![rotl_term_of(i as int, 1)];
            lemma_added_concat(e0, e, evals@, coeff, row_weight, want.take(6 + y), t, ry@);
            assert(want[6 + y] == rotl_term_of(i as int, 1));
            assert(want.take(6 + y) + t =~= want.take(7 + y));
        }
    }
    proof {
        assert(want.take(11) =~= want);
        assert(block_terms(n, 2, row as int) == want);
        assert(block_terms(n, 0, row as int) == Seq::<ShiftedValueIndex>::empty());
        assert(block_terms(n, 1, row as int) == Seq::<ShiftedValueIndex>::empty());
        lemma_added_nothing(e0, coeffs@[0], row_weight, ry@);
        lemma_added_nothing(e0, coeffs@[1], row_weight, ry@);
        lemma_row_added(e0, e0, e0, evals@, n, coeffs@, rx@, ry@, row as int);
    }
}

/// Adds the share of row `s` of a round block.
fn accumulate_row<F: BinaryField>(
    evals: &mut Vec<F>,
    Ghost(n): Ghost<int>,
    coeffs: &[F],
    rx: &[F],
    permutation: usize,
    round: usize,
    s: usize,
    ry: &[F],
)
    requires
        old(evals)@.len() == 512,
        coeffs@.len() == 3,
        permutation < n,
        768 * n <= rx@.len(),
        32 + 800 * n <= ry@.len(),
        32 + 800 * n <= u32::MAX,
        round < 24,
        s < 32,
    ensures
        row_added(
            old(evals)@,
            final(evals)@,
            n,
            coeffs@,
            rx@,
            ry@,
            768 * permutation + 32 * round + s,
        ),
{
    if s < D_CONSTRAINT_OFFSET {
        accumulate_chi_row(evals, Ghost(n), coeffs, rx, permutation, round, s, ry);
    } else if s < D_CONSTRAINT_OFFSET + layout::D_WORDS_PER_BLOCK {
        accumulate_d_row(
            evals,
            Ghost(n),
            coeffs,
            rx,
            permutation,
            round,
            s - D_CONSTRAINT_OFFSET,
            ry,
        );
    } else {
        proof {
            let pre = evals@;
            let row = 768 * permutation + 32 * round + s;
            assert(row % 32 == s);
            lemma_added_nothing(pre, coeffs@[0], rx@[row], ry@);
            lemma_added_nothing(pre, coeffs@[1], rx@[row], ry@);
            lemma_added_nothing(pre, coeffs@[2], rx@[row], ry@);
            lemma_row_added(pre, pre, pre, pre, n, coeffs@, rx@, ry@, row);
        }
    }
}

/// Whether the table holds the shares of the first `rows` rows.
spec fn holds_rows<F: BinaryField>(
    table: Seq<F>,
    n: int,
    coeffs: Seq<F>,
    rx: Seq<F>,
    ry: Seq<F>,
    rows: nat,
) -> bool {
    &&& table.len() == 512
    &&& forall|v: int, a: int|
        0 <= v < 8 && 0 <= a < 64 ==> #[trigger] table[cell(v, a)] == sum(
            |row: int| row_share(n, coeffs, rx, ry, row, v, a),
            rows,
        )
}

proof fn lemma_holds_next<F: BinaryField>(
    pre: Seq<F>,
    post: Seq<F>,
    n: int,
    coeffs: Seq<F>,
    rx: Seq<F>,
    ry: Seq<F>,
    rows: nat,
)
    requires
        holds_rows(pre, n, coeffs, rx, ry, rows),
        row_added(pre, post, n, coeffs, rx, ry, rows as int),
    ensures
        holds_rows(post, n, coeffs, rx, ry, rows + 1),
{
    assert forall|v: int, a: int| 0 <= v < 8 && 0 <= a < 64 implies #[trigger] post[cell(v, a)]
        == sum(|row: int| row_share(n, coeffs, rx, ry, row, v, a), rows + 1) by {
        let f = |row: int| row_share(n, coeffs, rx, ry, row, v, a);
        assert(sum(f, rows + 1) == sum(f, rows).plus(f(rows as int)));
        assert(pre[cell(v, a)] == sum(f, rows));
    }
}

proof fn lemma_table_of_rows<F: BinaryField>(
    table: Seq<F>,
    n: int,
    coeffs: Seq<F>,
    rx: Seq<F>,
    ry: Seq<F>,
)
    requires
        0 <= n,
        768 * n <= rx.len(),
        holds_rows(table, n, coeffs, rx, ry, (768 * n) as nat),
    ensures
        forall|v: int|
            0 <= v < 8 ==> #[trigger] table_rows(table)(v) == matrix_row(
                |m: int, row: int| block_terms(n, m, row),
                3,
                rx.len(),
                coeffs,
                rx,
                ry,
                v,
            ),
{
    let terms = |m: int, row: int| block_terms(n, m, row);
    let rows = rx.len();
    assert forall|v: int| 0 <= v < 8 implies #[trigger] table_rows(table)(v) == matrix_row(
        terms,
        3,
        rows,
        coeffs,
        rx,
        ry,
        v,
    ) by {
        assert forall|a: int| 0 <= a < 64 implies table_rows(table)(v)[a] == batched_matrix(
            terms,
            3,
            rows,
            coeffs,
            rx,
            ry,
            v,
            a,
        ) by {
            assert(table_rows(table)(v)[a] == table[cell(v, a)]);
            let f = |row: int| row_share(n, coeffs, rx, ry, row, v, a);
            assert forall|row: int| 768 * n <= row < rows implies #[trigger] f(row)
                == F::zero_of() by {
                lemma_zero(rx[row]);
                lemma_zero(coeffs[0]);
                lemma_zero(coeffs[1]);
                lemma_zero(coeffs[2]);
                lemma_zero(F::zero_of());
            }
            lemma_sum_tail(f, (768 * n) as nat, rows);
            let s0 = |row: int| share(coeffs[0], rx[row], block_terms(n, 0, row), ry, v, a);
            let s1 = |row: int| share(coeffs[1], rx[row], block_terms(n, 1, row), ry, v, a);
            let s2 = |row: int| share(coeffs[2], rx[row], block_terms(n, 2, row), ry, v, a);
            let s01 = |row: int| s0(row).plus(s1(row));
            lemma_sum_ext(f, |row: int| s01(row).plus(s2(row)), rows);
            lemma_sum_plus(s01, s2, rows);
            lemma_sum_plus(s0, s1, rows);
            let t0 = |row: int|
                rx[row].times(term_weight((|r: int| terms(0, r))(row), ry, v, a));
            let t1 = |row: int|
                rx[row].times(term_weight((|r: int| terms(1, r))(row), ry, v, a));
            let t2 = |row: int|
                rx[row].times(term_weight((|r: int| terms(2, r))(row), ry, v, a));
            lemma_sum_ext(s0, |row: int| coeffs[0].times(t0(row)), rows);
            lemma_sum_ext(s1, |row: int| coeffs[1].times(t1(row)), rows);
            lemma_sum_ext(s2, |row: int| coeffs[2].times(t2(row)), rows);
            lemma_sum_scale(coeffs[0], t0, rows);
            lemma_sum_scale(coeffs[1], t1, rows);
            lemma_sum_scale(coeffs[2], t2, rows);
            let g = |m: int|
                coeffs[m].times(matrix_of(|row: int| terms(m, row), rows, rx, ry, v, a));
            assert(sum(g, 3) == sum(g, 2).plus(g(2)));
            assert(sum(g, 2) == sum(g, 1).plus(g(1)));
            assert(sum(g, 1) == sum(g, 0).plus(g(0)));
            lemma_zero(g(0));
            let u0 = |row: int| rx[row].times(term_weight((|row: int| terms(0, row))(row), ry, v, a));
            let u1 = |row: int| rx[row].times(term_weight((|row: int| terms(1, row))(row), ry, v, a));
            let u2 = |row: int| rx[row].times(term_weight((|row: int| terms(2, row))(row), ry, v, a));
            lemma_sum_ext(t0, u0, rows);
            lemma_sum_ext(t1, u1, rows);
            lemma_sum_ext(t2, u2, rows);
            assert(matrix_of(|row: int| terms(0, row), rows, rx, ry, v, a) == sum(u0, rows));
            assert(matrix_of(|row: int| terms(1, row), rows, rx, ry, v, a) == sum(u1, rows));
            assert(matrix_of(|row: int| terms(2, row), rows, rx, ry, v, a) == sum(u2, rows));
        }
        assert(table_rows(table)(v) =~= matrix_row(terms, 3, rows, coeffs, rx, ry, v));
    }
}

/// Computes the batched matrices of the constraint system of `n_permutations`, streaming the
/// terms of its rows.
pub fn structured_bitand_matrix_evals<F: BinaryField>(
    n_permutations: usize,
    operand_coeffs: &[F],
    r_x_prime_tensor: &[F],
    r_y_tensor: &[F],
) -> (r: Vec<F>)
    requires
        operand_coeffs@.len() == 3,
        768 * n_permutations <= r_x_prime_tensor@.len(),
        32 + 800 * n_permutations <= r_y_tensor@.len(),
        32 + 800 * n_permutations <= u32::MAX,
    ensures
        r@.len() == 512,
        forall|v: int|
            0 <= v < 8 ==> #[trigger] table_rows(r@)(v) == matrix_row(
                |m: int, row: int| block_terms(n_permutations as int, m, row),
                3,
                r_x_prime_tensor@.len(),
                operand_coeffs@,
                r_x_prime_tensor@,
                r_y_tensor@,
                v,
            ),
{
    let ghost n = n_permutations as int;
    let ghost (coeffs, rx, ry) = (operand_coeffs@, r_x_prime_tensor@, r_y_tensor@);
    let mut evals: Vec<F> = zero_table();
    for permutation in 0..n_permutations
        invariant
            n == n_permutations,
            coeffs == operand_coeffs@,
            rx == r_x_prime_tensor@,
            ry == r_y_tensor@,
            coeffs.len() == 3,
            768 * n <= rx.len(),
            32 + 800 * n <= ry.len(),
            32 + 800 * n <= u32::MAX,
            holds_rows(evals@, n, coeffs, rx, ry, (768 * permutation) as nat),
    {
        for round in 0..24
            invariant
                n == n_permutations,
                permutation < n,
                coeffs == operand_coeffs@,
                rx == r_x_prime_tensor@,
                ry == r_y_tensor@,
                coeffs.len() == 3,
                768 * n <= rx.len(),
                32 + 800 * n <= ry.len(),
                32 + 800 * n <= u32::MAX,
                holds_rows(evals@, n, coeffs, rx, ry, (768 * permutation + 32 * round) as nat),
        {
            for s in 0..32
                invariant
                    n == n_permutations,
                    permutation < n,
                    round < 24,
                    coeffs == operand_coeffs@,
                    rx == r_x_prime_tensor@,
                    ry == r_y_tensor@,
                    coeffs.len() == 3,
                    768 * n <= rx.len(),
                    32 + 800 * n <= ry.len(),
                    32 + 800 * n <= u32::MAX,
                    holds_rows(
                        evals@,
                        n,
                        coeffs,
                        rx,
                        ry,
                        (768 * permutation + 32 * round + s) as nat,
                    ),
            {
                let ghost pre = evals@;
                accumulate_row(
                    &mut evals,
                    Ghost(n),
                    operand_coeffs,
                    r_x_prime_tensor,
                    permutation,
                    round,
                    s,
                    r_y_tensor,
                );
                proof {
                    lemma_holds_next(
                        pre,
                        evals@,
                        n,
                        coeffs,
                        rx,
                        ry,
                        (768 * permutation + 32 * round + s) as nat,
                    );
                }
            }
        }
    }
    proof {
        lemma_table_of_rows(evals@, n, coeffs, rx, ry);
    }
    evals
}

/// Evaluates the matrix polynomial of the constraint system of `n_permutations` at the
/// challenges.
pub fn structured_bitand_monster_eval<F: BinaryField>(
    n_permutations: usize,
    operator_data: &OperatorData<F, 3>,
    subspace: &BinarySubspace<F>,
    lambda: F,
    r_j: &[F],
    r_s: &[F],
    r_y: &[F],
) -> (r: F)
    requires
        subspace.basis@.len() == 6,
        r_j@.len() == 6,
        r_s@.len() == 6,
        768 * n_permutations <= pow2(operator_data.r_x_prime@.len()) <= usize::MAX,
        32 + 800 * n_permutations <= pow2(r_y@.len()) <= usize::MAX,
        32 + 800 * n_permutations <= u32::MAX,
    ensures
        r == monster_value(
            |m: int, row: int| block_terms(n_permutations as int, m, row),
            3,
            operator_data.r_x_prime@,
            lagrange_of(subspace_points(subspace.basis@), operator_data.r_zhat_prime),
            lambda,
            r_j@,
            r_s@,
            r_y@,
        ),
{
    proof {
        lemma2_to64();
    }
    let l_evals = lagrange_evals_scalars(subspace, operator_data.r_zhat_prime);
    let l_tilde = l_evals.as_slice();
    let rx = eq_ind_partial_eval_scalars(operator_data.r_x_prime.as_slice());
    let ry = eq_ind_partial_eval_scalars(r_y);
    let coeffs = powers_from_one(lambda, 3);
    let table = structured_bitand_matrix_evals(
        n_permutations,
        coeffs.as_slice(),
        rx.as_slice(),
        ry.as_slice(),
    );
    proof {
        let terms = |m: int, row: int| block_terms(n_permutations as int, m, row);
        lemma_combined_ext(
            table_rows(table@),
            |v: int| matrix_row(terms, 3, rx@.len(), coeffs@, rx@, ry@, v),
            l_tilde@,
            r_j@,
            r_s@,
        );
    }
    combine_table(&table, l_tilde, r_j, r_s)
}

/// The operand lists of AND constraints.
pub open spec fn and_terms(rows: Seq<AndConstraint>, m: int, row: int) -> Seq<ShiftedValueIndex> {
    if row >= rows.len() {
        Seq::empty()
    } else if m == 0 {
        rows[row].a@
    } else if m == 1 {
        rows[row].b@
    } else {
        rows[row].c@
    }
}

/// The streamed terms are those of the materialized constraint system, so that the structured
/// evaluation is the generic one.
pub proof fn lemma_structured_is_generic<F: BinaryField>(
    rows: Seq<AndConstraint>,
    n: int,
    r_x: Seq<F>,
    l: Seq<F>,
    lambda: F,
    r_j: Seq<F>,
    r_s: Seq<F>,
    r_y: Seq<F>,
)
    requires
        0 <= n,
        are_block_rows(rows, n),
    ensures
        monster_value(
            |m: int, row: int| block_terms(n, m, row),
            3,
            r_x,
            l,
            lambda,
            r_j,
            r_s,
            r_y,
        ) == monster_value(
            |m: int, row: int| and_terms(rows, m, row),
            3,
            r_x,
            l,
            lambda,
            r_j,
            r_s,
            r_y,
        ),
{
    let x = |m: int, row: int| block_terms(n, m, row);
    let y = |m: int, row: int| and_terms(rows, m, row);
    assert forall|m: int, row: int| 0 <= m < 3 && 0 <= row implies #[trigger] x(m, row) == y(
        m,
        row,
    ) by {
        crate::constraint_system::lemma_ceil_pow2((768 * n) as nat);
        if row < 768 * n {
            assert(is_block_row(rows[row], row / 768, (row % 768) / 32, row % 32));
            assert(x(m, row) =~= y(m, row));
        } else if row < rows.len() {
            assert(is_empty_and(rows[row]));
            assert(x(m, row) =~= y(m, row));
        }
    }
    lemma_monster_ext(x, y, 3, r_x, l, lambda, r_j, r_s, r_y);
}

/// The structured evaluator returns what the generic evaluator returns on the operand lists of the
/// materialized constraint system: all left operands, all right operands, all results.
pub proof fn lemma_structured_is_generic_on_operands<F: BinaryField>(
    rows: Seq<AndConstraint>,
    operands: Seq<Vec<&Operand>>,
    n: int,
    r_x: Seq<F>,
    l: Seq<F>,
    lambda: F,
    r_j: Seq<F>,
    r_s: Seq<F>,
    r_y: Seq<F>,
)
    requires
        0 <= n,
        are_block_rows(rows, n),
        operands.len() == 3,
        forall|m: int| 0 <= m < 3 ==> (#[trigger] operands[m])@.len() == rows.len(),
        forall|row: int|
            #![trigger rows[row]]
            0 <= row < rows.len() ==> {
                &&& *operands[0]@[row] == rows[row].a
                &&& *operands[1]@[row] == rows[row].b
                &&& *operands[2]@[row] == rows[row].c
            },
    ensures
        monster_value(
            |m: int, row: int| block_terms(n, m, row),
            3,
            r_x,
            l,
            lambda,
            r_j,
            r_s,
            r_y,
        ) == monster_value(
            |m: int, row: int| terms_or_none(operands, m, row),
            3,
            r_x,
            l,
            lambda,
            r_j,
            r_s,
            r_y,
        ),
{
    let y = |m: int, row: int| and_terms(rows, m, row);
    let z = |m: int, row: int| terms_or_none(operands, m, row);
    lemma_structured_is_generic(rows, n, r_x, l, lambda, r_j, r_s, r_y);
    assert forall|m: int, row: int| 0 <= m < 3 && 0 <= row < pow2(r_x.len()) implies #[trigger] y(
        m,
        row,
    ) == z(m, row) by {
        assert(operands[m]@.len() == rows.len());
        if row < rows.len() {
            let c = rows[row];
        }
    }
    lemma_monster_ext(y, z, 3, r_x, l, lambda, r_j, r_s, r_y);
}

} // verus!
