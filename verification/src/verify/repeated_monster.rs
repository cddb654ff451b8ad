//! The matrix polynomial of a batch of identical operations, evaluated on the base operation
//! alone.
use super::h_op::{selector, variant_of};
use super::monster::{
    combine_table, evaluate_matrices, has_shift, lambda_powers, lemma_combined_ext,
    lemma_table_is_matrices, matrix_of, matrix_row, monster_value, table_rows, term_weight,
    terms_in_range, terms_of, terms_or_none, OperatorData,
};
use super::repeated::is_offset_operand;
use crate::constraint_system::{Operand, ShiftedValueIndex};
use crate::field::BinaryField;
use crate::math::lagrange::{lagrange_evals_scalars, lagrange_of};
use crate::math::multilinear::{
    eq_ind, eq_ind_partial_eval_scalars, eq_of, eq_weight, eq_weights, lemma_eq_weight_concat,
    lemma_eq_weight_products, mle,
};
use crate::math::subspace::{subspace_points, BinarySubspace};
use crate::math::sums::{
    keep_if, lemma_sum_blocks, lemma_sum_ext, lemma_sum_scale, lemma_times_swap, lemma_zero,
    powers_from_one, sum,
};
use vstd::arithmetic::power2::{lemma2_to64, lemma_pow2_adds, lemma_pow2_pos, lemma_pow2_unfold, pow2};
use vstd::prelude::*;

verus! {

/// Whether a number is a power of two.
pub open spec fn is_pow2(n: nat) -> bool {
    exists|k: nat| n == pow2(k)
}

/// Tensor layout of a batch of identical operation constraints:
///
/// ```text
/// flat_index = instance * base_len + local_index
/// ```
#[derive(Debug, Clone, Copy, PartialEq, Eq, Structural)]
pub struct RepeatedMonsterLayout {
    /// Number of instance-axis multilinear variables.
    pub log_instances: usize,
    /// Number of constraints in the base operation, a power of two.
    pub base_constraint_count: usize,
    /// Number of committed values in the base circuit, a power of two.
    pub base_value_count: usize,
}

impl RepeatedMonsterLayout {
    /// Both base sizes are powers of two.
    pub open spec fn wf(self) -> bool {
        is_pow2(self.base_constraint_count as nat) && is_pow2(self.base_value_count as nat)
    }

    /// Creates a layout from its sizes.
    pub fn new(
        log_instances: usize,
        base_constraint_count: usize,
        base_value_count: usize,
    ) -> (r: Self)
        requires
            is_pow2(base_constraint_count as nat),
            is_pow2(base_value_count as nat),
        ensures
            r.wf(),
            r == (RepeatedMonsterLayout { log_instances, base_constraint_count, base_value_count }),
    {
        RepeatedMonsterLayout { log_instances, base_constraint_count, base_value_count }
    }

    /// The number of variables that address a constraint of the base operation.
    pub fn base_log_constraints(self) -> (r: usize)
        requires
            self.wf(),
        ensures
            self.base_constraint_count == pow2(r as nat),
    {
        exact_log2(self.base_constraint_count)
    }

    /// The number of variables that address a value of the base circuit.
    pub fn base_log_values(self) -> (r: usize)
        requires
            self.wf(),
        ensures
            self.base_value_count == pow2(r as nat),
    {
        exact_log2(self.base_value_count)
    }
}

/// Different exponents give different powers.
pub proof fn lemma_pow2_injective(a: nat, b: nat)
    requires
        pow2(a) == pow2(b),
    ensures
        a == b,
{
    if a < b {
        vstd::arithmetic::power2::lemma_pow2_strictly_increases(a, b);
    } else if b < a {
        vstd::arithmetic::power2::lemma_pow2_strictly_increases(b, a);
    }
}

/// The exponent of a power of two.
pub fn exact_log2(n: usize) -> (r: usize)
    requires
        is_pow2(n as nat),
    ensures
        n == pow2(r as nat),
    decreases n,
{
    let ghost k = choose|k: nat| n == pow2(k);
    proof {
        lemma2_to64();
        lemma_pow2_pos(k);
    }
    if n == 1 {
        0
    } else {
        proof {
            assert(k > 0);
            lemma_pow2_unfold(k);
            assert(n as nat / 2 == pow2((k - 1) as nat));
        }
        let h: usize = exact_log2(n / 2);
        proof {
            lemma_pow2_unfold((h + 1) as nat);
            lemma_pow2_injective((h + 1) as nat, k);
            vstd::arithmetic::power2::lemma_pow2(h as nat);
            lemma_log_bound(h as nat);
        }
        h + 1
    }
}

proof fn lemma_log_bound(k: nat)
    ensures
        k < pow2(k),
    decreases k,
{
    lemma2_to64();
    if k > 0 {
        lemma_log_bound((k - 1) as nat);
        lemma_pow2_unfold(k);
    }
}

/// Evaluates the matrix polynomial of a batch of identical operations at the challenges of the
/// flat batch, from the base operation alone: the instance axis collapses to the equality
/// indicator of the instance parts of `r_x'` and `r_y`.
pub fn evaluate_repeated_monster_multilinear_for_operation<F: BinaryField, const ARITY: usize>(
    base_operand_vecs: &[Vec<&Operand>],
    operator_data: &OperatorData<F, ARITY>,
    subspace: &BinarySubspace<F>,
    lambda: F,
    r_j: &[F],
    r_s: &[F],
    r_y: &[F],
    layout: RepeatedMonsterLayout,
) -> (r: F)
    requires
        layout.wf(),
        base_operand_vecs@.len() == ARITY,
        forall|m: int|
            0 <= m < ARITY ==> (#[trigger] base_operand_vecs@[m])@.len()
                == layout.base_constraint_count,
        subspace.basis@.len() == 6,
        r_j@.len() == 6,
        r_s@.len() == 6,
        operator_data.r_x_prime@.len() >= layout.log_instances,
        r_y@.len() >= layout.log_instances,
        pow2((operator_data.r_x_prime@.len() - layout.log_instances) as nat)
            == layout.base_constraint_count,
        pow2((r_y@.len() - layout.log_instances) as nat) == layout.base_value_count,
        terms_in_range(base_operand_vecs@, layout.base_value_count as nat),
    ensures
        r == repeated_value(
            |m: int, row: int| terms_or_none(base_operand_vecs@, m, row),
            ARITY as nat,
            operator_data.r_x_prime@,
            lagrange_of(subspace_points(subspace.basis@), operator_data.r_zhat_prime),
            lambda,
            r_j@,
            r_s@,
            r_y@,
            layout.log_instances as nat,
        ),
{
    proof {
        lemma2_to64();
    }
    let l_evals = lagrange_evals_scalars(subspace, operator_data.r_zhat_prime);
    let l_tilde = l_evals.as_slice();
    let base_log_constraints: usize = layout.base_log_constraints();
    let base_log_values: usize = layout.base_log_values();
    let ghost kx = (operator_data.r_x_prime@.len() - layout.log_instances) as nat;
    let ghost ky = (r_y@.len() - layout.log_instances) as nat;
    proof {
        lemma_pow2_injective(base_log_constraints as nat, kx);
        lemma_pow2_injective(base_log_values as nat, ky);
    }
    let (r_x_local, r_x_instance) = operator_data.r_x_prime.as_slice().split_at(
        base_log_constraints,
    );
    let (r_y_local, r_y_instance) = r_y.split_at(base_log_values);
    let rx = eq_ind_partial_eval_scalars(r_x_local);
    let ry = eq_ind_partial_eval_scalars(r_y_local);
    let instance_factor = eq_ind(r_x_instance, r_y_instance);
    let coeffs = powers_from_one(lambda, base_operand_vecs.len());
    let table = evaluate_matrices(
        base_operand_vecs,
        coeffs.as_slice(),
        rx.as_slice(),
        ry.as_slice(),
    );
    let eval = combine_table(&table, l_tilde, r_j, r_s);
    proof {
        let r_x = operator_data.r_x_prime@;
        assert(r_x_local@ =~= r_x.take(kx as int) && r_x_instance@ =~= r_x.skip(kx as int));
        assert(r_y_local@ =~= r_y@.take(ky as int) && r_y_instance@ =~= r_y@.skip(ky as int));
        let terms = |m: int, row: int| terms_or_none(base_operand_vecs@, m, row);
        lemma_table_is_matrices(
            table@,
            base_operand_vecs@,
            terms,
            ARITY as nat,
            pow2(kx),
            coeffs@,
            rx@,
            ry@,
        );
        lemma_combined_ext(
            table_rows(table@),
            |v: int| matrix_row(terms, ARITY as nat, pow2(kx), coeffs@, rx@, ry@, v),
            l_tilde@,
            r_j@,
            r_s@,
        );
    }
    instance_factor.mul(eval)
}

/// The matrix polynomial of the base operation at the local parts of the challenges, times the
/// equality indicator of their instance parts.
pub open spec fn repeated_value<F: BinaryField>(
    terms: spec_fn(int, int) -> Seq<ShiftedValueIndex>,
    arity: nat,
    r_x: Seq<F>,
    l: Seq<F>,
    lambda: F,
    r_j: Seq<F>,
    r_s: Seq<F>,
    r_y: Seq<F>,
    log_instances: nat,
) -> F {
    let kx = r_x.len() - log_instances;
    let ky = r_y.len() - log_instances;
    eq_of(r_x.skip(kx), r_y.skip(ky)).times(
        monster_value(terms, arity, r_x.take(kx), l, lambda, r_j, r_s, r_y.take(ky)),
    )
}

/// Whether `flat` lists the batch of `base`: instance `u` of constraint `i` stands at
/// `u * base_constraints + i` and reads the values of instance `u`.
pub open spec fn is_flat_batch(
    base: spec_fn(int, int) -> Seq<ShiftedValueIndex>,
    flat: spec_fn(int, int) -> Seq<ShiftedValueIndex>,
    arity: nat,
    instances: nat,
    base_constraints: nat,
    base_values: nat,
) -> bool {
    forall|m: int, u: int, i: int|
        0 <= m < arity && 0 <= u < instances && 0 <= i < base_constraints ==> is_offset_operand(
            #[trigger] flat(m, u * base_constraints + i),
            base(m, i),
            u * base_values,
        )
}

/// Whether every value index of the base operation is below `base_values`.
pub open spec fn batch_in_range(
    base: spec_fn(int, int) -> Seq<ShiftedValueIndex>,
    arity: nat,
    base_constraints: nat,
    base_values: nat,
) -> bool {
    forall|m: int, i: int, t: int|
        0 <= m < arity && 0 <= i < base_constraints && 0 <= t < base(m, i).len() ==> (
        #[trigger] base(m, i)[t]).value_index.0 < base_values
}

proof fn lemma_offset_weight<F: BinaryField>(
    op: Seq<ShiftedValueIndex>,
    off: Seq<ShiftedValueIndex>,
    ry_lo: Seq<F>,
    ry_hi: Seq<F>,
    u: int,
    v: int,
    a: int,
)
    requires
        0 <= u < pow2(ry_hi.len()),
        is_offset_operand(off, op, u * pow2(ry_lo.len())),
        forall|t: int| 0 <= t < op.len() ==> (#[trigger] op[t]).value_index.0 < pow2(ry_lo.len()),
    ensures
        term_weight(off, eq_weights(ry_lo + ry_hi), v, a)
            == eq_weight(ry_hi, u).times(term_weight(op, eq_weights(ry_lo), v, a)),
{
    let n = pow2(ry_lo.len()) as int;
    let all = eq_weights(ry_lo + ry_hi);
    let lo = eq_weights(ry_lo);
    let w = eq_weight(ry_hi, u);
    let f = |t: int| keep_if(has_shift(off[t], v, a), all[off[t].value_index.0 as int]);
    let g = |t: int| keep_if(has_shift(op[t], v, a), lo[op[t].value_index.0 as int]);
    assert forall|t: int| 0 <= t < op.len() implies #[trigger] f(t) == w.times(g(t)) by {
        let i = op[t].value_index.0 as int;
        assert(op[t].value_index.0 < n);
        let h = pow2(ry_hi.len()) as int;
        assert(u * n + i < h * n && 0 <= u * n) by (nonlinear_arith)
            requires
                0 <= u < h,
                0 <= i < n,
        ;
        assert(off[t].value_index.0 == u * n + i);
        lemma_pow2_adds(ry_lo.len(), ry_hi.len());
        assert(h * n == n * h) by (nonlinear_arith);
        lemma_eq_weight_concat(ry_lo, ry_hi, i, u);
        F::lemma_times(eq_weight(ry_lo, i), w, w);
        lemma_zero(w);
    }
    lemma_sum_ext(f, |t: int| w.times(g(t)), op.len());
    lemma_sum_scale(w, g, op.len());
}

proof fn lemma_flat_matrix<F: BinaryField>(
    base: spec_fn(int) -> Seq<ShiftedValueIndex>,
    flat: spec_fn(int) -> Seq<ShiftedValueIndex>,
    rx_lo: Seq<F>,
    rx_hi: Seq<F>,
    ry_lo: Seq<F>,
    ry_hi: Seq<F>,
    v: int,
    a: int,
)
    requires
        rx_hi.len() == ry_hi.len(),
        forall|u: int, i: int|
            0 <= u < pow2(rx_hi.len()) && 0 <= i < pow2(rx_lo.len()) ==> is_offset_operand(
                #[trigger] flat(u * pow2(rx_lo.len()) + i),
                base(i),
                u * pow2(ry_lo.len()),
            ),
        forall|i: int, t: int|
            0 <= i < pow2(rx_lo.len()) && 0 <= t < base(i).len() ==> (
            #[trigger] base(i)[t]).value_index.0 < pow2(ry_lo.len()),
    ensures
        matrix_of(
            flat,
            pow2((rx_lo + rx_hi).len()),
            eq_weights(rx_lo + rx_hi),
            eq_weights(ry_lo + ry_hi),
            v,
            a,
        ) == eq_of(rx_hi, ry_hi).times(
            matrix_of(base, pow2(rx_lo.len()), eq_weights(rx_lo), eq_weights(ry_lo), v, a),
        ),
{
    let n = pow2(rx_lo.len());
    let h = pow2(rx_hi.len());
    let rx = eq_weights(rx_lo + rx_hi);
    let ry = eq_weights(ry_lo + ry_hi);
    let (bx, by) = (eq_weights(rx_lo), eq_weights(ry_lo));
    lemma_pow2_adds(rx_lo.len(), rx_hi.len());
    assert(n * h == h * n) by (nonlinear_arith);
    let f = |row: int| rx[row].times(term_weight(flat(row), ry, v, a));
    let g = |i: int| bx[i].times(term_weight(base(i), by, v, a));
    let total = sum(g, n);
    lemma_sum_blocks(f, h, n);
    let blocks = |u: int| sum(|i: int| f(u * n + i), n);
    let pairs = |u: int| eq_weight(rx_hi, u).times(eq_weight(ry_hi, u));
    let scaled = |u: int| total.times(pairs(u));
    assert forall|u: int| 0 <= u < h implies #[trigger] blocks(u) == scaled(u) by {
        let row = |i: int| f(u * n + i);
        let c = pairs(u);
        assert forall|i: int| 0 <= i < n implies #[trigger] row(i) == c.times(g(i)) by {
            let (un, hn) = (u * n, h * n);
            assert(un + i < hn && 0 <= un) by (nonlinear_arith)
                requires
                    0 <= u < h,
                    0 <= i < n,
                    un == u * n,
                    hn == h * n,
            ;
            assert(is_offset_operand(flat(u * n + i), base(i), u * pow2(ry_lo.len())));
            assert forall|t: int| 0 <= t < base(i).len() implies (
            #[trigger] base(i)[t]).value_index.0 < pow2(ry_lo.len()) by {}
            lemma_offset_weight(base(i), flat(u * n + i), ry_lo, ry_hi, u, v, a);
            lemma_eq_weight_concat(rx_lo, rx_hi, i, u);
            let (p, q) = (eq_weight(rx_lo, i), eq_weight(rx_hi, u));
            let (s, t) = (eq_weight(ry_hi, u), term_weight(base(i), by, v, a));
            // (p q)(s t) = (q s)(p t)
            F::lemma_times(p, q, q);
            lemma_times_swap(q, p, s, t);
        }
        lemma_sum_ext(row, |i: int| c.times(g(i)), n);
        lemma_sum_scale(c, g, n);
        F::lemma_times(c, total, c);
        assert(blocks(u) == sum(row, n));
    }
    lemma_sum_ext(blocks, scaled, h);
    lemma_sum_scale(total, pairs, h);
    lemma_eq_weight_products(rx_hi, ry_hi);
    F::lemma_times(total, eq_of(rx_hi, ry_hi), total);
}

proof fn lemma_mle_scale<F: BinaryField>(c: F, a: Seq<F>, b: Seq<F>, r: Seq<F>)
    requires
        forall|i: int| 0 <= i < pow2(r.len()) ==> #[trigger] a[i] == c.times(b[i]),
    ensures
        mle(a, r) == c.times(mle(b, r)),
{
    let n = pow2(r.len());
    let f = |i: int| eq_weight(r, i).times(a[i]);
    let g = |i: int| eq_weight(r, i).times(b[i]);
    assert forall|i: int| 0 <= i < n implies #[trigger] f(i) == c.times(g(i)) by {
        let w = eq_weight(r, i);
        assert(a[i] == c.times(b[i]));
        F::lemma_times(w, c, b[i]);
        F::lemma_times(c, w, b[i]);
    }
    lemma_sum_ext(f, |i: int| c.times(g(i)), n);
    lemma_sum_scale(c, g, n);
}

/// The repeated evaluation is that of the flat batch: evaluating the base operation once gives
/// what evaluating every constraint of every instance gives.
pub proof fn lemma_repeated_is_flat<F: BinaryField>(
    base: spec_fn(int, int) -> Seq<ShiftedValueIndex>,
    flat: spec_fn(int, int) -> Seq<ShiftedValueIndex>,
    arity: nat,
    r_x: Seq<F>,
    l: Seq<F>,
    lambda: F,
    r_j: Seq<F>,
    r_s: Seq<F>,
    r_y: Seq<F>,
    log_instances: nat,
)
    requires
        r_x.len() >= log_instances,
        r_y.len() >= log_instances,
        r_s.len() == 6,
        is_flat_batch(
            base,
            flat,
            arity,
            pow2(log_instances),
            pow2((r_x.len() - log_instances) as nat),
            pow2((r_y.len() - log_instances) as nat),
        ),
        batch_in_range(
            base,
            arity,
            pow2((r_x.len() - log_instances) as nat),
            pow2((r_y.len() - log_instances) as nat),
        ),
    ensures
        monster_value(flat, arity, r_x, l, lambda, r_j, r_s, r_y) == repeated_value(
            base,
            arity,
            r_x,
            l,
            lambda,
            r_j,
            r_s,
            r_y,
            log_instances,
        ),
{
    lemma2_to64();
    let kx = r_x.len() - log_instances;
    let ky = r_y.len() - log_instances;
    let (rx_lo, rx_hi) = (r_x.take(kx), r_x.skip(kx));
    let (ry_lo, ry_hi) = (r_y.take(ky), r_y.skip(ky));
    assert(rx_lo + rx_hi =~= r_x);
    assert(ry_lo + ry_hi =~= r_y);
    let factor = eq_of(rx_hi, ry_hi);
    let coeffs = lambda_powers(lambda, arity);
    let rows_flat = |v: int|
        matrix_row(flat, arity, pow2(r_x.len()), coeffs, eq_weights(r_x), eq_weights(r_y), v);
    let rows_base = |v: int|
        matrix_row(
            base,
            arity,
            pow2(rx_lo.len()),
            coeffs,
            eq_weights(rx_lo),
            eq_weights(ry_lo),
            v,
        );
    let f = |v: int| mle(rows_flat(v), r_s).times(selector(variant_of(v), l, r_j, r_s));
    let g = |v: int| mle(rows_base(v), r_s).times(selector(variant_of(v), l, r_j, r_s));
    assert forall|v: int| 0 <= v < 8 implies #[trigger] f(v) == factor.times(g(v)) by {
        assert forall|a: int| 0 <= a < 64 implies #[trigger] rows_flat(v)[a] == factor.times(
            rows_base(v)[a],
        ) by {
            let fm = |m: int|
                coeffs[m].times(
                    matrix_of(
                        |row: int| flat(m, row),
                        pow2(r_x.len()),
                        eq_weights(r_x),
                        eq_weights(r_y),
                        v,
                        a,
                    ),
                );
            let gm = |m: int|
                coeffs[m].times(
                    matrix_of(
                        |row: int| base(m, row),
                        pow2(rx_lo.len()),
                        eq_weights(rx_lo),
                        eq_weights(ry_lo),
                        v,
                        a,
                    ),
                );
            assert forall|m: int| 0 <= m < arity implies #[trigger] fm(m) == factor.times(gm(m)) by {
                let bm = |row: int| base(m, row);
                let flm = |row: int| flat(m, row);
                assert forall|u: int, i: int|
                    0 <= u < pow2(rx_hi.len()) && 0 <= i < pow2(
                        rx_lo.len(),
                    ) implies is_offset_operand(
                    #[trigger] flm(u * pow2(rx_lo.len()) + i),
                    bm(i),
                    u * pow2(ry_lo.len()),
                ) by {
                    assert(is_offset_operand(
                        flat(m, u * pow2(rx_lo.len()) + i),
                        base(m, i),
                        u * pow2(ry_lo.len()),
                    ));
                }
                assert forall|i: int, t: int|
                    0 <= i < pow2(rx_lo.len()) && 0 <= t < bm(i).len() implies (
                #[trigger] bm(i)[t]).value_index.0 < pow2(ry_lo.len()) by {
                    assert(base(m, i)[t].value_index.0 < pow2(ry_lo.len()));
                }
                lemma_flat_matrix(bm, flm, rx_lo, rx_hi, ry_lo, ry_hi, v, a);
                let b = matrix_of(
                    bm,
                    pow2(rx_lo.len()),
                    eq_weights(rx_lo),
                    eq_weights(ry_lo),
                    v,
                    a,
                );
                F::lemma_times(coeffs[m], factor, b);
                F::lemma_times(factor, coeffs[m], b);
            }
            lemma_sum_ext(fm, |m: int| factor.times(gm(m)), arity);
            lemma_sum_scale(factor, gm, arity);
        }
        assert(pow2(6) == 64);
        lemma_mle_scale(factor, rows_flat(v), rows_base(v), r_s);
        F::lemma_times(
            factor,
            mle(rows_base(v), r_s),
            selector(variant_of(v), l, r_j, r_s),
        );
    }
    lemma_sum_ext(f, |v: int| factor.times(g(v)), 8);
    lemma_sum_scale(factor, g, 8);
}

/// The repeated evaluator returns what the flat evaluator returns on the materialized batch: the
/// flat operand lists have the base rows of every instance, one instance after the other, with the
/// base value count added to every value index for each instance before it.
pub proof fn lemma_repeated_operands_are_flat<F: BinaryField>(
    base: Seq<Vec<&Operand>>,
    flat: Seq<Vec<&Operand>>,
    layout: RepeatedMonsterLayout,
    r_x: Seq<F>,
    l: Seq<F>,
    lambda: F,
    r_j: Seq<F>,
    r_s: Seq<F>,
    r_y: Seq<F>,
)
    requires
        base.len() == flat.len(),
        r_x.len() >= layout.log_instances,
        r_y.len() >= layout.log_instances,
        r_s.len() == 6,
        pow2((r_x.len() - layout.log_instances) as nat) == layout.base_constraint_count,
        pow2((r_y.len() - layout.log_instances) as nat) == layout.base_value_count,
        terms_in_range(base, layout.base_value_count as nat),
        forall|m: int|
            0 <= m < base.len() ==> (#[trigger] base[m])@.len() == layout.base_constraint_count,
        forall|m: int|
            0 <= m < base.len() ==> (#[trigger] flat[m])@.len() == pow2(
                layout.log_instances as nat,
            ) * layout.base_constraint_count,
        forall|m: int, u: int, c: int|
            0 <= m < base.len() && 0 <= u < pow2(layout.log_instances as nat) && 0 <= c
                < layout.base_constraint_count ==> is_offset_operand(
                #[trigger] terms_of(flat, m, u * layout.base_constraint_count + c),
                terms_of(base, m, c),
                u * layout.base_value_count,
            ),
    ensures
        monster_value(
            |m: int, row: int| terms_or_none(flat, m, row),
            base.len(),
            r_x,
            l,
            lambda,
            r_j,
            r_s,
            r_y,
        ) == repeated_value(
            |m: int, row: int| terms_or_none(base, m, row),
            base.len(),
            r_x,
            l,
            lambda,
            r_j,
            r_s,
            r_y,
            layout.log_instances as nat,
        ),
{
    let (n, instances) = (layout.base_constraint_count as int, pow2(layout.log_instances as nat));
    let values = layout.base_value_count as int;
    let b = |m: int, row: int| terms_or_none(base, m, row);
    let f = |m: int, row: int| terms_or_none(flat, m, row);
    assert forall|m: int, u: int, c: int|
        0 <= m < base.len() && 0 <= u < instances && 0 <= c < n implies is_offset_operand(
        #[trigger] f(m, u * n + c),
        b(m, c),
        u * values,
    ) by {
        assert(u * n + c < instances * n && 0 <= u * n) by (nonlinear_arith)
            requires
                0 <= u < instances,
                0 <= c < n,
        ;
        assert(base[m]@.len() == n && flat[m]@.len() == instances * n);
        assert(is_offset_operand(terms_of(flat, m, u * n + c), terms_of(base, m, c), u * values));
    }
    assert forall|m: int, i: int, t: int|
        0 <= m < base.len() && 0 <= i < n && 0 <= t < b(m, i).len() implies (
    #[trigger] b(m, i)[t]).value_index.0 < values by {
        assert(base[m]@.len() == n);
        assert(terms_of(base, m, i)[t].value_index.0 < values);
    }
    lemma_repeated_is_flat(
        b,
        f,
        base.len(),
        r_x,
        l,
        lambda,
        r_j,
        r_s,
        r_y,
        layout.log_instances as nat,
    );
}

} // verus!
