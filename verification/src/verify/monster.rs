//! Evaluation of the shift reduction's matrix polynomial, for a constraint system and for a
//! batch of identical ones.
use super::h_op::{evaluate_h_op, selector, variant_of};
use crate::constraint_system::{Operand, ShiftedValueIndex};
use crate::field::BinaryField;
use crate::math::multilinear::{eq_ind_partial_eval_scalars, eq_weights, evaluate_scalars, mle};
use crate::math::sums::{
    keep_if, lemma_distr, lemma_sum_ext, lemma_sum_tail, lemma_zero, pow_of, powers_from_one, sum,
};
use vstd::arithmetic::power2::{lemma2_to64, pow2};
use crate::math::lagrange::{lagrange_evals_scalars, lagrange_of};
use crate::math::subspace::{subspace_points, BinarySubspace};
use vstd::prelude::*;

verus! {

/// The challenges and claims of an operation with `ARITY` operands.
#[derive(Debug, Clone)]
pub struct OperatorData<F, const ARITY: usize> {
    /// The univariate challenge.
    pub r_zhat_prime: F,
    /// The multilinear challenge of the constraint index.
    pub r_x_prime: Vec<F>,
    /// The claimed evaluation of each operand.
    pub evals: [F; ARITY],
}

/// The operands of an AND constraint.
pub const BITAND_ARITY: usize = 3;

/// The operands of a MUL constraint.
pub const INTMUL_ARITY: usize = 4;

/// Whether a term has a given shift variant and amount.
pub open spec fn has_shift(t: ShiftedValueIndex, v: int, a: int) -> bool {
    t.shift_variant.id() == v && t.amount == a
}

/// The weight of an operand's terms with a given shift.
pub open spec fn term_weight<F: BinaryField>(
    op: Seq<ShiftedValueIndex>,
    ry: Seq<F>,
    v: int,
    a: int,
) -> F {
    sum(|t: int| keep_if(has_shift(op[t], v, a), ry[op[t].value_index.0 as int]), op.len())
}

/// The terms of operand `m` of constraint `row`.
pub open spec fn terms_of(operands: Seq<Vec<&Operand>>, m: int, row: int) -> Seq<ShiftedValueIndex> {
    operands[m]@[row]@
}

/// The terms of operand `m` of constraint `row`, none where there is no such constraint.
pub open spec fn terms_or_none(operands: Seq<Vec<&Operand>>, m: int, row: int) -> Seq<
    ShiftedValueIndex,
> {
    if row < operands[m]@.len() {
        terms_of(operands, m, row)
    } else {
        Seq::empty()
    }
}

/// The matrix of one operand at a given shift.
pub open spec fn matrix_of<F: BinaryField>(
    rows: spec_fn(int) -> Seq<ShiftedValueIndex>,
    n: nat,
    rx: Seq<F>,
    ry: Seq<F>,
    v: int,
    a: int,
) -> F {
    sum(|row: int| rx[row].times(term_weight(rows(row), ry, v, a)), n)
}

/// The matrices of all operands at a given shift, batched by the coefficients.
pub open spec fn batched_matrix<F: BinaryField>(
    terms: spec_fn(int, int) -> Seq<ShiftedValueIndex>,
    arity: nat,
    n: nat,
    coeffs: Seq<F>,
    rx: Seq<F>,
    ry: Seq<F>,
    v: int,
    a: int,
) -> F {
    sum(
        |m: int| coeffs[m].times(matrix_of(|row: int| terms(m, row), n, rx, ry, v, a)),
        arity,
    )
}

/// The batched matrices of a variant at every amount.
pub open spec fn matrix_row<F: BinaryField>(
    terms: spec_fn(int, int) -> Seq<ShiftedValueIndex>,
    arity: nat,
    n: nat,
    coeffs: Seq<F>,
    rx: Seq<F>,
    ry: Seq<F>,
    v: int,
) -> Seq<F> {
    Seq::new(64, |a: int| batched_matrix(terms, arity, n, coeffs, rx, ry, v, a))
}

/// The sum over the shift variants of the selector times the batched matrix at `r_s`.
pub open spec fn combined<F: BinaryField>(
    rows: spec_fn(int) -> Seq<F>,
    l: Seq<F>,
    r_j: Seq<F>,
    r_s: Seq<F>,
) -> F {
    sum(|v: int| mle(rows(v), r_s).times(selector(variant_of(v), l, r_j, r_s)), 8)
}

/// The powers `lambda^1, ..., lambda^n`.
pub open spec fn lambda_powers<F: BinaryField>(lambda: F, n: nat) -> Seq<F> {
    Seq::new(n, |i: int| pow_of(lambda, (i + 1) as nat))
}

/// Whether every term of every operand is in range of the value tensor.
pub open spec fn terms_in_range(operands: Seq<Vec<&Operand>>, n_values: nat) -> bool {
    forall|m: int, row: int, t: int|
        0 <= m < operands.len() && 0 <= row < operands[m]@.len() && 0 <= t < terms_of(
            operands,
            m,
            row,
        ).len() ==> (#[trigger] terms_of(operands, m, row)[t]).value_index.0 < n_values && terms_of(
            operands,
            m,
            row,
        )[t].amount < 64
}

/// The position of a shift in a table of all shifts.
pub open spec fn cell(v: int, a: int) -> int {
    64 * v + a
}

/// A table of 512 zeros.
pub fn zero_table<F: BinaryField>() -> (r: Vec<F>)
    ensures
        r@.len() == 512,
        forall|i: int| 0 <= i < 512 ==> r@[i] == F::zero_of(),
{
    let mut r: Vec<F> = Vec::new();
    for i in 0..512
        invariant
            r@.len() == i,
            forall|k: int| 0 <= k < i ==> r@[k] == F::zero_of(),
    {
        r.push(F::zero());
    }
    r
}

/// Adds the weighted terms of an operand to the table of its matrix.
fn add_terms<F: BinaryField>(table: &mut Vec<F>, op: &Operand, weight: F, ry: &[F])
    requires
        old(table)@.len() == 512,
        forall|t: int|
            0 <= t < op@.len() ==> (#[trigger] op@[t]).value_index.0 < ry@.len() && op@[t].amount
                < 64,
    ensures
        final(table)@.len() == 512,
        forall|v: int, a: int|
            0 <= v < 8 && 0 <= a < 64 ==> #[trigger] final(table)@[cell(v, a)] == old(
                table,
            )@[cell(v, a)].plus(weight.times(term_weight(op@, ry@, v, a))),
{
    let n: usize = op.len();
    let ghost start = table@;
    proof {
        assert forall|v: int, a: int| 0 <= v < 8 && 0 <= a < 64 implies #[trigger] table@[cell(v, a)]
            == start[cell(v, a)].plus(
            weight.times(
                sum(
                    |t: int|
                        keep_if(has_shift(op@[t], v, a), ry@[op@[t].value_index.0 as int]),
                    0,
                ),
            ),
        ) by {
            lemma_zero(weight);
            lemma_zero(start[cell(v, a)]);
        }
    }
    for k in 0..n
        invariant
            n == op@.len(),
            table@.len() == 512,
            start.len() == 512,
            forall|t: int|
                0 <= t < op@.len() ==> (#[trigger] op@[t]).value_index.0 < ry@.len()
                    && op@[t].amount < 64,
            forall|v: int, a: int|
                0 <= v < 8 && 0 <= a < 64 ==> #[trigger] table@[cell(v, a)] == start[cell(
                    v,
                    a,
                )].plus(
                    weight.times(
                        sum(
                            |t: int|
                                keep_if(has_shift(op@[t], v, a), ry@[op@[t].value_index.0 as int]),
                            k as nat,
                        ),
                    ),
                ),
    {
        let ghost before = table@;
        let term = op[k];
        let id: usize = term.shift_variant.shift_id();
        let at: usize = 64 * id + term.amount;
        let value = ry[term.value_index.0 as usize];
        table[at] = table[at].add(weight.mul(value));
        proof {
            assert forall|v: int, a: int| 0 <= v < 8 && 0 <= a < 64 implies #[trigger] table@[cell(
                v,
                a,
            )] == start[cell(v, a)].plus(
                weight.times(
                    sum(
                        |t: int|
                            keep_if(has_shift(op@[t], v, a), ry@[op@[t].value_index.0 as int]),
                        (k + 1) as nat,
                    ),
                ),
            ) by {
                let f = |t: int|
                    keep_if(has_shift(op@[t], v, a), ry@[op@[t].value_index.0 as int]);
                let acc = sum(f, k as nat);
                assert(sum(f, (k + 1) as nat) == acc.plus(f(k as int)));
                assert(before[cell(v, a)] == start[cell(v, a)].plus(weight.times(acc)));
                lemma_distr(acc, f(k as int), weight);
                F::lemma_plus(
                    start[cell(v, a)],
                    weight.times(acc),
                    weight.times(f(k as int)),
                );
                if has_shift(term, v, a) {
                    assert(cell(v, a) == at);
                } else {
                    assert(cell(v, a) != at);
                    lemma_zero(acc);
                }
            }
        }
    }
}

/// Adds the table of one operand, scaled by its coefficient, to the batched table.
fn add_scaled<F: BinaryField>(acc: &mut Vec<F>, coeff: F, table: &Vec<F>)
    requires
        old(acc)@.len() == 512,
        table@.len() == 512,
    ensures
        final(acc)@.len() == 512,
        forall|i: int|
            0 <= i < 512 ==> #[trigger] final(acc)@[i] == old(acc)@[i].plus(coeff.times(table@[i])),
{
    let ghost start = acc@;
    for i in 0..512
        invariant
            acc@.len() == 512,
            start.len() == 512,
            table@.len() == 512,
            forall|k: int|
                0 <= k < i ==> #[trigger] acc@[k] == start[k].plus(coeff.times(table@[k])),
            forall|k: int| i <= k < 512 ==> #[trigger] acc@[k] == start[k],
    {
        acc[i] = acc[i].add(coeff.mul(table[i]));
    }
}

/// The number of constraints that an operand list and the constraint tensor have in common.
pub open spec fn common_rows<F>(operands: Seq<Vec<&Operand>>, m: int, rx: Seq<F>) -> nat {
    if operands[m]@.len() < rx.len() {
        operands[m]@.len()
    } else {
        rx.len()
    }
}

/// Computes the batched matrices: one value per shift variant and amount.
pub fn evaluate_matrices<F: BinaryField>(
    operands: &[Vec<&Operand>],
    operand_coeffs: &[F],
    r_x_prime_tensor: &[F],
    r_y_tensor: &[F],
) -> (r: Vec<F>)
    requires
        operands@.len() == operand_coeffs@.len(),
        terms_in_range(operands@, r_y_tensor@.len()),
    ensures
        r@.len() == 512,
        forall|v: int, a: int|
            0 <= v < 8 && 0 <= a < 64 ==> #[trigger] r@[cell(v, a)] == sum(
                |m: int|
                    operand_coeffs@[m].times(
                        matrix_of(
                            |row: int| terms_of(operands@, m, row),
                            common_rows(operands@, m, r_x_prime_tensor@),
                            r_x_prime_tensor@,
                            r_y_tensor@,
                            v,
                            a,
                        ),
                    ),
                operands@.len(),
            ),
{
    let ghost rx = r_x_prime_tensor@;
    let ghost ry = r_y_tensor@;
    let mut acc: Vec<F> = zero_table();
    let arity: usize = operands.len();
    for m in 0..arity
        invariant
            arity == operands@.len(),
            arity == operand_coeffs@.len(),
            rx == r_x_prime_tensor@,
            ry == r_y_tensor@,
            terms_in_range(operands@, ry.len()),
            acc@.len() == 512,
            forall|v: int, a: int|
                0 <= v < 8 && 0 <= a < 64 ==> #[trigger] acc@[cell(v, a)] == sum(
                    |m: int|
                        operand_coeffs@[m].times(
                            matrix_of(
                                |row: int| terms_of(operands@, m, row),
                                common_rows(operands@, m, rx),
                                rx,
                                ry,
                                v,
                                a,
                            ),
                        ),
                    m as nat,
                ),
    {
        let ghost before = acc@;
        let constraint_operands = &operands[m];
        let n: usize = if constraint_operands.len() < r_x_prime_tensor.len() {
            constraint_operands.len()
        } else {
            r_x_prime_tensor.len()
        };
        let ghost rows = |row: int| terms_of(operands@, m as int, row);
        let mut table: Vec<F> = zero_table();
        for row in 0..n
            invariant
                m < arity,
                arity == operands@.len(),
                n <= constraint_operands@.len(),
                n <= rx.len(),
                *constraint_operands == operands@[m as int],
                rx == r_x_prime_tensor@,
                ry == r_y_tensor@,
                terms_in_range(operands@, ry.len()),
                rows == (|row: int| terms_of(operands@, m as int, row)),
                table@.len() == 512,
                forall|v: int, a: int|
                    0 <= v < 8 && 0 <= a < 64 ==> #[trigger] table@[cell(v, a)] == matrix_of(
                        rows,
                        row as nat,
                        rx,
                        ry,
                        v,
                        a,
                    ),
        {
            let op: &Operand = constraint_operands[row];
            proof {
                assert(op@ == terms_of(operands@, m as int, row as int));
                assert forall|t: int| 0 <= t < op@.len() implies (#[trigger] op@[t]).value_index.0
                    < ry.len() && op@[t].amount < 64 by {
                    assert(terms_of(operands@, m as int, row as int)[t] == op@[t]);
                }
            }
            add_terms(&mut table, op, r_x_prime_tensor[row], r_y_tensor);
            proof {
                assert forall|v: int, a: int|
                    0 <= v < 8 && 0 <= a < 64 implies #[trigger] table@[cell(v, a)] == matrix_of(
                    rows,
                    (row + 1) as nat,
                    rx,
                    ry,
                    v,
                    a,
                ) by {
                    let f = |k: int| rx[k].times(term_weight(rows(k), ry, v, a));
                    assert(sum(f, (row + 1) as nat) == sum(f, row as nat).plus(f(row as int)));
                }
            }
        }
        add_scaled(&mut acc, operand_coeffs[m], &table);
        proof {
            assert forall|v: int, a: int|
                0 <= v < 8 && 0 <= a < 64 implies #[trigger] acc@[cell(v, a)] == sum(
                |m: int|
                    operand_coeffs@[m].times(
                        matrix_of(
                            |row: int| terms_of(operands@, m, row),
                            common_rows(operands@, m, rx),
                            rx,
                            ry,
                            v,
                            a,
                        ),
                    ),
                (m + 1) as nat,
            ) by {
                let f = |m: int|
                    operand_coeffs@[m].times(
                        matrix_of(
                            |row: int| terms_of(operands@, m, row),
                            common_rows(operands@, m, rx),
                            rx,
                            ry,
                            v,
                            a,
                        ),
                    );
                assert(sum(f, (m + 1) as nat) == sum(f, m as nat).plus(f(m as int)));
                assert(before[cell(v, a)] == sum(f, m as nat));
                assert((|row: int| terms_of(operands@, m as int, row)) =~= rows);
            }
        }
    }
    acc
}

/// The rows of a table of all shifts.
pub open spec fn table_rows<F>(table: Seq<F>) -> spec_fn(int) -> Seq<F> {
    |v: int| table.subrange(64 * v, 64 * v + 64)
}

/// Combines a table of all shifts with the shift selectors.
pub fn combine_table<F: BinaryField>(table: &Vec<F>, l_tilde: &[F], r_j: &[F], r_s: &[F]) -> (r: F)
    requires
        table@.len() == 512,
        l_tilde@.len() == 64,
        r_j@.len() == 6,
        r_s@.len() == 6,
    ensures
        r == combined(table_rows(table@), l_tilde@, r_j@, r_s@),
{
    let h = evaluate_h_op(l_tilde, r_j, r_s);
    let mut acc = F::zero();
    let ghost rows = table_rows(table@);
    let ghost f = |v: int|
        mle(rows(v), r_s@).times(selector(variant_of(v), l_tilde@, r_j@, r_s@));
    proof {
        lemma2_to64();
        assert(pow2(6) == 64);
    }
    for v in 0..8
        invariant
            table@.len() == 512,
            r_s@.len() == 6,
            pow2(6) == 64,
            rows == table_rows(table@),
            f == (|v: int|
                mle(rows(v), r_s@).times(selector(variant_of(v), l_tilde@, r_j@, r_s@))),
            forall|v: int|
                0 <= v < 8 ==> #[trigger] h[v] == selector(
                    variant_of(v),
                    l_tilde@,
                    r_j@,
                    r_s@,
                ),
            acc == sum(f, v as nat),
    {
        let row = vstd::slice::slice_subrange(table.as_slice(), 64 * v, 64 * v + 64);
        assert(row@ =~= rows(v as int));
        let value = evaluate_scalars(row, r_s);
        acc = acc.add(value.mul(h[v]));
    }
    acc
}

/// Evaluates the matrix polynomial of an operation at the challenges: the batched matrices at
/// `r_x'`, `r_y` and `r_s`, each times the selector of its shift variant. The
/// Lagrange polynomials are those of `subspace` at the univariate challenge.
pub fn evaluate_monster_multilinear_for_operation<F: BinaryField, const ARITY: usize>(
    operand_vecs: &[Vec<&Operand>],
    operator_data: &OperatorData<F, ARITY>,
    subspace: &BinarySubspace<F>,
    lambda: F,
    r_j: &[F],
    r_s: &[F],
    r_y: &[F],
) -> (r: F)
    requires
        operand_vecs@.len() == ARITY,
        subspace.basis@.len() == 6,
        r_j@.len() == 6,
        r_s@.len() == 6,
        pow2(operator_data.r_x_prime@.len()) <= usize::MAX,
        pow2(r_y@.len()) <= usize::MAX,
        terms_in_range(operand_vecs@, pow2(r_y@.len())),
    ensures
        r == monster_value(
            |m: int, row: int| terms_or_none(operand_vecs@, m, row),
            ARITY as nat,
            operator_data.r_x_prime@,
            lagrange_of(subspace_points(subspace.basis@), operator_data.r_zhat_prime),
            lambda,
            r_j@,
            r_s@,
            r_y@,
        ),
{
    proof {
        lemma2_to64();
    }
    let l_evals = lagrange_evals_scalars(subspace, operator_data.r_zhat_prime);
    let l_tilde = l_evals.as_slice();
    let rx = eq_ind_partial_eval_scalars(operator_data.r_x_prime.as_slice());
    let ry = eq_ind_partial_eval_scalars(r_y);
    let coeffs = powers_from_one(lambda, operand_vecs.len());
    let table = evaluate_matrices(operand_vecs, coeffs.as_slice(), rx.as_slice(), ry.as_slice());
    proof {
        let terms = |m: int, row: int| terms_or_none(operand_vecs@, m, row);
        lemma_table_is_matrices(
            table@,
            operand_vecs@,
            terms,
            ARITY as nat,
            pow2(operator_data.r_x_prime@.len()),
            coeffs@,
            rx@,
            ry@,
        );
        lemma_combined_ext(
            table_rows(table@),
            |v: int|
                matrix_row(
                    terms,
                    ARITY as nat,
                    pow2(operator_data.r_x_prime@.len()),
                    coeffs@,
                    rx@,
                    ry@,
                    v,
                ),
            l_tilde@,
            r_j@,
            r_s@,
        );
    }
    combine_table(&table, l_tilde, r_j, r_s)
}

/// The matrix polynomial of an operation at the challenges.
pub open spec fn monster_value<F: BinaryField>(
    terms: spec_fn(int, int) -> Seq<ShiftedValueIndex>,
    arity: nat,
    r_x: Seq<F>,
    l: Seq<F>,
    lambda: F,
    r_j: Seq<F>,
    r_s: Seq<F>,
    r_y: Seq<F>,
) -> F {
    combined(
        |v: int|
            matrix_row(
                terms,
                arity,
                pow2(r_x.len()),
                lambda_powers(lambda, arity),
                eq_weights(r_x),
                eq_weights(r_y),
                v,
            ),
        l,
        r_j,
        r_s,
    )
}

pub proof fn lemma_combined_ext<F: BinaryField>(
    a: spec_fn(int) -> Seq<F>,
    b: spec_fn(int) -> Seq<F>,
    l: Seq<F>,
    r_j: Seq<F>,
    r_s: Seq<F>,
)
    requires
        forall|v: int| 0 <= v < 8 ==> #[trigger] a(v) == b(v),
    ensures
        combined(a, l, r_j, r_s) == combined(b, l, r_j, r_s),
{
    let f = |v: int| mle(a(v), r_s).times(selector(variant_of(v), l, r_j, r_s));
    let g = |v: int| mle(b(v), r_s).times(selector(variant_of(v), l, r_j, r_s));
    assert forall|v: int| 0 <= v < 8 implies #[trigger] f(v) == g(v) by {
        assert(a(v) == b(v));
    }
    lemma_sum_ext(f, g, 8);
}

/// The monster polynomial is a function of the terms of the rows that the point addresses.
pub proof fn lemma_monster_ext<F: BinaryField>(
    x: spec_fn(int, int) -> Seq<ShiftedValueIndex>,
    y: spec_fn(int, int) -> Seq<ShiftedValueIndex>,
    arity: nat,
    r_x: Seq<F>,
    l: Seq<F>,
    lambda: F,
    r_j: Seq<F>,
    r_s: Seq<F>,
    r_y: Seq<F>,
)
    requires
        forall|m: int, row: int|
            0 <= m < arity && 0 <= row < pow2(r_x.len()) ==> #[trigger] x(m, row) == y(m, row),
    ensures
        monster_value(x, arity, r_x, l, lambda, r_j, r_s, r_y) == monster_value(
            y,
            arity,
            r_x,
            l,
            lambda,
            r_j,
            r_s,
            r_y,
        ),
{
    let size = pow2(r_x.len());
    let coeffs = lambda_powers(lambda, arity);
    let (wx, wy) = (eq_weights(r_x), eq_weights(r_y));
    let rx = |v: int| matrix_row(x, arity, size, coeffs, wx, wy, v);
    let ry = |v: int| matrix_row(y, arity, size, coeffs, wx, wy, v);
    assert forall|v: int| 0 <= v < 8 implies #[trigger] rx(v) == ry(v) by {
        assert forall|a: int| 0 <= a < 64 implies #[trigger] rx(v)[a] == ry(v)[a] by {
            let f = |m: int|
                coeffs[m].times(matrix_of(|row: int| x(m, row), size, wx, wy, v, a));
            let g = |m: int|
                coeffs[m].times(matrix_of(|row: int| y(m, row), size, wx, wy, v, a));
            assert forall|m: int| 0 <= m < arity implies #[trigger] f(m) == g(m) by {
                let fx = |row: int|
                    wx[row].times(term_weight((|row: int| x(m, row))(row), wy, v, a));
                let fy = |row: int|
                    wx[row].times(term_weight((|row: int| y(m, row))(row), wy, v, a));
                assert forall|row: int| 0 <= row < size implies #[trigger] fx(row) == fy(row) by {
                    assert(x(m, row) == y(m, row));
                }
                lemma_sum_ext(fx, fy, size);
            }
            lemma_sum_ext(f, g, arity);
        }
        assert(rx(v) =~= ry(v));
    }
    lemma_combined_ext(rx, ry, l, r_j, r_s);
}

pub proof fn lemma_table_is_matrices<F: BinaryField>(
    table: Seq<F>,
    operands: Seq<Vec<&Operand>>,
    terms: spec_fn(int, int) -> Seq<ShiftedValueIndex>,
    arity: nat,
    n: nat,
    coeffs: Seq<F>,
    rx: Seq<F>,
    ry: Seq<F>,
)
    requires
        table.len() == 512,
        operands.len() == arity,
        rx.len() == n,
        terms == (|m: int, row: int| terms_or_none(operands, m, row)),
        forall|v: int, a: int|
            0 <= v < 8 && 0 <= a < 64 ==> #[trigger] table[cell(v, a)] == sum(
                |m: int|
                    coeffs[m].times(
                        matrix_of(
                            |row: int| terms_of(operands, m, row),
                            common_rows(operands, m, rx),
                            rx,
                            ry,
                            v,
                            a,
                        ),
                    ),
                arity,
            ),
    ensures
        forall|v: int|
            0 <= v < 8 ==> #[trigger] table_rows(table)(v) == matrix_row(
                terms,
                arity,
                n,
                coeffs,
                rx,
                ry,
                v,
            ),
{
    assert forall|v: int| 0 <= v < 8 implies #[trigger] table_rows(table)(v) == matrix_row(
        terms,
        arity,
        n,
        coeffs,
        rx,
        ry,
        v,
    ) by {
        let want = matrix_row(terms, arity, n, coeffs, rx, ry, v);
        assert forall|a: int| 0 <= a < 64 implies table_rows(table)(v)[a] == want[a] by {
            assert(table_rows(table)(v)[a] == table[cell(v, a)]);
            let f = |m: int|
                coeffs[m].times(
                    matrix_of(
                        |row: int| terms_of(operands, m, row),
                        common_rows(operands, m, rx),
                        rx,
                        ry,
                        v,
                        a,
                    ),
                );
            let g = |m: int|
                coeffs[m].times(matrix_of(|row: int| terms(m, row), n, rx, ry, v, a));
            assert forall|m: int| 0 <= m < arity implies #[trigger] f(m) == g(m) by {
                let common = common_rows(operands, m, rx);
                let short = |row: int| rx[row].times(
                    term_weight((|row: int| terms_of(operands, m, row))(row), ry, v, a),
                );
                let long = |row: int| rx[row].times(
                    term_weight((|row: int| terms(m, row))(row), ry, v, a),
                );
                assert forall|row: int| common <= row < n implies #[trigger] long(row)
                    == F::zero_of() by {
                    lemma_zero(rx[row]);
                }
                lemma_sum_ext(short, long, common);
                lemma_sum_tail(long, common, n);
            }
            lemma_sum_ext(f, g, arity);
        }
        assert(table_rows(table)(v) =~= want);
    }
}

} // verus!
