//! Laws of the matrix polynomial: what every term adds to it, and that it takes the words of a
//! witness to the operands of the constraints.
use super::h_op::{selector, selector_at, source_bit, source_weight, variant_of};
use super::monster::{
    batched_matrix, combined, has_shift, lambda_powers, matrix_of, matrix_row, monster_value,
    term_weight,
};
use super::shift_laws::{bit64, lemma_source_bit};
use crate::constraint_system::{
    operand_value, shifted_word, term_value, ShiftVariant, ShiftedValueIndex, Word,
};
use crate::field::BinaryField;
use crate::keccak_prove::shift_evals::lemma_bit_xor;
use crate::math::multilinear::{bit_point, eq_weight, eq_weights, lemma_eq_weight_vertex, mle};
use crate::math::sums::{
    keep_if, lemma_sum_blocks, lemma_sum_exchange, lemma_sum_ext, lemma_sum_plus,
    lemma_sum_scale, lemma_sum_single, lemma_sum_zero, lemma_zero, pow_of, sum,
};
use vstd::arithmetic::power2::{lemma2_to64, pow2};
use vstd::prelude::*;

verus! {

/// Two nested weighted sums may be taken in either order.
proof fn lemma_weighted_exchange<F: BinaryField>(
    c: spec_fn(int) -> F,
    w: spec_fn(int) -> F,
    g: spec_fn(int, int) -> F,
    n: nat,
    m: nat,
)
    ensures
        sum(|k: int| w(k).times(sum(|i: int| c(i).times(g(i, k)), n)), m) == sum(
            |i: int| c(i).times(sum(|k: int| w(k).times(g(i, k)), m)),
            n,
        ),
{
    let h = |i: int, k: int| c(i).times(w(k).times(g(i, k)));
    lemma_sum_exchange(h, n, m);
    let left = |k: int| w(k).times(sum(|i: int| c(i).times(g(i, k)), n));
    let cols = |k: int| sum(|i: int| h(i, k), n);
    assert forall|k: int| 0 <= k < m implies #[trigger] left(k) == cols(k) by {
        let f = |i: int| c(i).times(g(i, k));
        lemma_sum_scale(w(k), f, n);
        let a = |i: int| w(k).times(f(i));
        let b = |i: int| h(i, k);
        assert forall|i: int| 0 <= i < n implies #[trigger] a(i) == b(i) by {
            F::lemma_times(w(k), c(i), g(i, k));
            F::lemma_times(c(i), w(k), g(i, k));
        }
        lemma_sum_ext(a, b, n);
    }
    lemma_sum_ext(left, cols, m);
    let right = |i: int| c(i).times(sum(|k: int| w(k).times(g(i, k)), m));
    let rows = |i: int| sum(|k: int| h(i, k), m);
    assert forall|i: int| 0 <= i < n implies #[trigger] right(i) == rows(i) by {
        let f = |k: int| w(k).times(g(i, k));
        lemma_sum_scale(c(i), f, m);
        lemma_sum_ext(|k: int| c(i).times(f(k)), |k: int| h(i, k), m);
    }
    lemma_sum_ext(right, rows, n);
}

/// What a term adds to its operand's matrix polynomial: the weight of its value, the weight of its
/// amount, and the selector of its shift.
pub open spec fn term_share<F: BinaryField>(
    t: ShiftedValueIndex,
    l: Seq<F>,
    r_j: Seq<F>,
    r_s: Seq<F>,
    r_y: Seq<F>,
) -> F {
    eq_weight(r_y, t.value_index.0 as int).times(
        eq_weight(r_s, t.amount as int).times(selector(t.shift_variant, l, r_j, r_s)),
    )
}

/// Whether the terms of the rows that a point addresses are in range.
pub open spec fn rows_in_range(
    terms: spec_fn(int, int) -> Seq<ShiftedValueIndex>,
    arity: nat,
    n_rows: nat,
    n_values: nat,
) -> bool {
    forall|m: int, row: int, t: int|
        0 <= m < arity && 0 <= row < n_rows && 0 <= t < terms(m, row).len() ==> (
        #[trigger] terms(m, row)[t]).value_index.0 < n_values && terms(m, row)[t].amount < 64
}

proof fn lemma_variant_of_id(v: ShiftVariant)
    ensures
        0 <= v.id() < 8,
        variant_of(v.id()) == v,
{
}

/// The weighted matrices of one term, over all variants and amounts, are its share.
proof fn lemma_term_share<F: BinaryField>(
    t: ShiftedValueIndex,
    l: Seq<F>,
    r_j: Seq<F>,
    r_s: Seq<F>,
    r_y: Seq<F>,
    w: spec_fn(int) -> F,
)
    requires
        t.value_index.0 < pow2(r_y.len()),
        t.amount < 64,
        forall|k: int|
            0 <= k < 512 ==> #[trigger] w(k) == eq_weight(r_s, k % 64).times(
                selector(variant_of(k / 64), l, r_j, r_s),
            ),
    ensures
        sum(
            |k: int|
                w(k).times(
                    keep_if(
                        has_shift(t, k / 64, k % 64),
                        eq_weights(r_y)[t.value_index.0 as int],
                    ),
                ),
            512,
        ) == term_share(t, l, r_j, r_s, r_y),
{
    lemma_variant_of_id(t.shift_variant);
    let y = eq_weights(r_y)[t.value_index.0 as int];
    let f = |k: int| w(k).times(keep_if(has_shift(t, k / 64, k % 64), y));
    let k0 = 64 * t.shift_variant.id() + t.amount;
    assert(k0 / 64 == t.shift_variant.id() && k0 % 64 == t.amount);
    assert forall|k: int| 0 <= k < 512 && k != k0 implies #[trigger] f(k) == F::zero_of() by {
        assert(k == 64 * (k / 64) + k % 64);
        lemma_zero(w(k));
    }
    lemma_sum_single(f, k0, 512);
    F::lemma_times(w(k0), y, y);
}

/// The matrix polynomial is the sum of the shares of all terms of all operands of all rows: a term
/// of operand `m` of row `x` adds `lambda^(m + 1)` times the weight of `x` times its share, whatever
/// its shift variant.
#[verifier::spinoff_prover]
#[verifier::rlimit(40)]
pub proof fn lemma_monster_sums_terms<F: BinaryField>(
    terms: spec_fn(int, int) -> Seq<ShiftedValueIndex>,
    arity: nat,
    r_x: Seq<F>,
    l: Seq<F>,
    lambda: F,
    r_j: Seq<F>,
    r_s: Seq<F>,
    r_y: Seq<F>,
)
    requires
        r_s.len() == 6,
        rows_in_range(terms, arity, pow2(r_x.len()), pow2(r_y.len())),
    ensures
        monster_value(terms, arity, r_x, l, lambda, r_j, r_s, r_y) == sum(
            |m: int|
                pow_of(lambda, (m + 1) as nat).times(
                    sum(
                        |row: int|
                            eq_weight(r_x, row).times(
                                sum(
                                    |t: int| term_share(terms(m, row)[t], l, r_j, r_s, r_y),
                                    terms(m, row).len(),
                                ),
                            ),
                        pow2(r_x.len()),
                    ),
                ),
            arity,
        ),
{
    lemma2_to64();
    let n = pow2(r_x.len());
    let coeffs = lambda_powers(lambda, arity);
    let (wx, wy) = (eq_weights(r_x), eq_weights(r_y));
    let rows = |v: int| matrix_row(terms, arity, n, coeffs, wx, wy, v);
    let w = |k: int|
        eq_weight(r_s, k % 64).times(selector(variant_of(k / 64), l, r_j, r_s));
    let total = |k: int| batched_matrix(terms, arity, n, coeffs, wx, wy, k / 64, k % 64);
    // all variants and amounts in one sum
    let f = |k: int| w(k).times(total(k));
    lemma_sum_blocks(f, 8, 64);
    let blocks = |v: int| sum(|a: int| f(v * 64nat + a), 64);
    let parts = |v: int| mle(rows(v), r_s).times(selector(variant_of(v), l, r_j, r_s));
    assert forall|v: int| 0 <= v < 8 implies #[trigger] parts(v) == blocks(v) by {
        let s = selector(variant_of(v), l, r_j, r_s);
        let g = |a: int| eq_weight(r_s, a).times(rows(v)[a]);
        lemma_sum_scale(s, g, 64);
        F::lemma_times(sum(g, 64), s, s);
        let left = |a: int| s.times(g(a));
        let right = |a: int| f(v * 64nat + a);
        assert forall|a: int| 0 <= a < 64 implies #[trigger] left(a) == right(a) by {
            let k = v * 64 + a;
            assert(k / 64 == v && k % 64 == a);
            let (e, b) = (eq_weight(r_s, a), rows(v)[a]);
            assert(total(k) == b);
            F::lemma_times(s, e, b);
            F::lemma_times(e, s, s);
        }
        lemma_sum_ext(left, right, 64);
    }
    lemma_sum_ext(parts, blocks, 8);
    assert(combined(rows, l, r_j, r_s) == sum(f, 512));
    // the operands
    let mat = |m: int, k: int|
        matrix_of(|row: int| terms(m, row), n, wx, wy, k / 64, k % 64);
    let c = |m: int| coeffs[m];
    lemma_weighted_exchange(c, w, mat, arity, 512);
    let f2 = |k: int| w(k).times(sum(|m: int| c(m).times(mat(m, k)), arity));
    assert forall|k: int| 0 <= k < 512 implies #[trigger] f(k) == f2(k) by {
        lemma_sum_ext(
            |m: int|
                coeffs[m].times(
                    matrix_of(|row: int| terms(m, row), n, wx, wy, k / 64, k % 64),
                ),
            |m: int| c(m).times(mat(m, k)),
            arity,
        );
    }
    lemma_sum_ext(f, f2, 512);
    let by_operand = |m: int| c(m).times(sum(|k: int| w(k).times(mat(m, k)), 512));
    let want = |m: int|
        pow_of(lambda, (m + 1) as nat).times(
            sum(
                |row: int|
                    eq_weight(r_x, row).times(
                        sum(
                            |t: int| term_share(terms(m, row)[t], l, r_j, r_s, r_y),
                            terms(m, row).len(),
                        ),
                    ),
                n,
            ),
        );
    assert forall|m: int| 0 <= m < arity implies #[trigger] by_operand(m) == want(m) by {
        lemma_operand_shares(terms, arity, m, r_x, l, r_j, r_s, r_y, w);
        lemma_sum_ext(
            |k: int| w(k).times(mat(m, k)),
            |k: int|
                w(k).times(matrix_of(|row: int| terms(m, row), n, wx, wy, k / 64, k % 64)),
            512,
        );
    }
    lemma_sum_ext(by_operand, want, arity);
}

proof fn lemma_operand_shares<F: BinaryField>(
    terms: spec_fn(int, int) -> Seq<ShiftedValueIndex>,
    arity: nat,
    m: int,
    r_x: Seq<F>,
    l: Seq<F>,
    r_j: Seq<F>,
    r_s: Seq<F>,
    r_y: Seq<F>,
    w: spec_fn(int) -> F,
)
    requires
        0 <= m < arity,
        rows_in_range(terms, arity, pow2(r_x.len()), pow2(r_y.len())),
        forall|k: int|
            0 <= k < 512 ==> #[trigger] w(k) == eq_weight(r_s, k % 64).times(
                selector(variant_of(k / 64), l, r_j, r_s),
            ),
    ensures
        sum(
            |k: int|
                w(k).times(
                    matrix_of(
                        |row: int| terms(m, row),
                        pow2(r_x.len()),
                        eq_weights(r_x),
                        eq_weights(r_y),
                        k / 64,
                        k % 64,
                    ),
                ),
            512,
        ) == sum(
            |row: int|
                eq_weight(r_x, row).times(
                    sum(
                        |t: int| term_share(terms(m, row)[t], l, r_j, r_s, r_y),
                        terms(m, row).len(),
                    ),
                ),
            pow2(r_x.len()),
        ),
{
    let n = pow2(r_x.len());
    let (wx, wy) = (eq_weights(r_x), eq_weights(r_y));
    let x = |row: int| wx[row];
    let g = |row: int, k: int| term_weight(terms(m, row), wy, k / 64, k % 64);
    lemma_weighted_exchange(x, w, g, n, 512);
    let left = |k: int|
        w(k).times(matrix_of(|row: int| terms(m, row), n, wx, wy, k / 64, k % 64));
    let left2 = |k: int| w(k).times(sum(|row: int| x(row).times(g(row, k)), n));
    assert forall|k: int| 0 <= k < 512 implies #[trigger] left(k) == left2(k) by {
        lemma_sum_ext(
            |row: int|
                wx[row].times(
                    term_weight((|row: int| terms(m, row))(row), wy, k / 64, k % 64),
                ),
            |row: int| x(row).times(g(row, k)),
            n,
        );
    }
    lemma_sum_ext(left, left2, 512);
    let by_row = |row: int| x(row).times(sum(|k: int| w(k).times(g(row, k)), 512));
    let want = |row: int|
        eq_weight(r_x, row).times(
            sum(
                |t: int| term_share(terms(m, row)[t], l, r_j, r_s, r_y),
                terms(m, row).len(),
            ),
        );
    assert forall|row: int| 0 <= row < n implies #[trigger] by_row(row) == want(row) by {
        let op = terms(m, row);
        let one = |t: int| F::one_of();
        let h = |t: int, k: int|
            keep_if(has_shift(op[t], k / 64, k % 64), wy[op[t].value_index.0 as int]);
        lemma_weighted_exchange(one, w, h, op.len(), 512);
        let a = |k: int| w(k).times(g(row, k));
        let b = |k: int| w(k).times(sum(|t: int| one(t).times(h(t, k)), op.len()));
        assert forall|k: int| 0 <= k < 512 implies #[trigger] a(k) == b(k) by {
            let p = |t: int|
                keep_if(has_shift(op[t], k / 64, k % 64), wy[op[t].value_index.0 as int]);
            let q = |t: int| one(t).times(h(t, k));
            assert forall|t: int| 0 <= t < op.len() implies #[trigger] p(t) == q(t) by {
                lemma_zero(h(t, k));
            }
            lemma_sum_ext(p, q, op.len());
        }
        lemma_sum_ext(a, b, 512);
        let shares = |t: int| one(t).times(sum(|k: int| w(k).times(h(t, k)), 512));
        let each = |t: int| term_share(op[t], l, r_j, r_s, r_y);
        assert forall|t: int| 0 <= t < op.len() implies #[trigger] shares(t) == each(t) by {
            assert(terms(m, row)[t].value_index.0 < pow2(r_y.len()));
            lemma_term_share(op[t], l, r_j, r_s, r_y, w);
            lemma_sum_ext(
                |k: int| w(k).times(h(t, k)),
                |k: int|
                    w(k).times(
                        keep_if(
                            has_shift(op[t], k / 64, k % 64),
                            wy[op[t].value_index.0 as int],
                        ),
                    ),
                512,
            );
            lemma_zero(each(t));
        }
        lemma_sum_ext(shares, each, op.len());
    }
    lemma_sum_ext(by_row, want, n);
}

/// The sum, over all values, all set bits of their words and all amounts, of a weight.
pub open spec fn witness_sum<F: BinaryField>(
    words: Seq<Word>,
    f: spec_fn(int, int, int) -> F,
) -> F {
    sum(
        |y: int|
            sum(
                |j: int| keep_if(bit64(words[y].0, j), sum(|s: int| f(y, j, s), 64)),
                64,
            ),
        words.len(),
    )
}

/// The weight of the set bits of a word.
pub open spec fn word_weight<F: BinaryField>(word: u64, l: Seq<F>) -> F {
    sum(|i: int| keep_if(bit64(word, i), l[i]), 64)
}

proof fn lemma_witness_sum_ext<F: BinaryField>(
    words: Seq<Word>,
    f: spec_fn(int, int, int) -> F,
    g: spec_fn(int, int, int) -> F,
)
    requires
        forall|y: int, j: int, s: int|
            0 <= y < words.len() && 0 <= j < 64 && 0 <= s < 64 ==> #[trigger] f(y, j, s) == g(
                y,
                j,
                s,
            ),
    ensures
        witness_sum(words, f) == witness_sum(words, g),
{
    let fy = |y: int|
        sum(|j: int| keep_if(bit64(words[y].0, j), sum(|s: int| f(y, j, s), 64)), 64);
    let gy = |y: int|
        sum(|j: int| keep_if(bit64(words[y].0, j), sum(|s: int| g(y, j, s), 64)), 64);
    assert forall|y: int| 0 <= y < words.len() implies #[trigger] fy(y) == gy(y) by {
        let fj = |j: int| keep_if(bit64(words[y].0, j), sum(|s: int| f(y, j, s), 64));
        let gj = |j: int| keep_if(bit64(words[y].0, j), sum(|s: int| g(y, j, s), 64));
        assert forall|j: int| 0 <= j < 64 implies #[trigger] fj(j) == gj(j) by {
            lemma_sum_ext(|s: int| f(y, j, s), |s: int| g(y, j, s), 64);
        }
        lemma_sum_ext(fj, gj, 64);
    }
    lemma_sum_ext(fy, gy, words.len());
}

proof fn lemma_witness_sum_zero<F: BinaryField>(words: Seq<Word>, f: spec_fn(int, int, int) -> F)
    requires
        forall|y: int, j: int, s: int|
            0 <= y < words.len() && 0 <= j < 64 && 0 <= s < 64 ==> #[trigger] f(y, j, s)
                == F::zero_of(),
    ensures
        witness_sum(words, f) == F::zero_of(),
{
    let fy = |y: int|
        sum(|j: int| keep_if(bit64(words[y].0, j), sum(|s: int| f(y, j, s), 64)), 64);
    assert forall|y: int| 0 <= y < words.len() implies #[trigger] fy(y) == F::zero_of() by {
        let fj = |j: int| keep_if(bit64(words[y].0, j), sum(|s: int| f(y, j, s), 64));
        assert forall|j: int| 0 <= j < 64 implies #[trigger] fj(j) == F::zero_of() by {
            lemma_sum_zero(|s: int| f(y, j, s), 64);
        }
        lemma_sum_zero(fj, 64);
    }
    lemma_sum_zero(fy, words.len());
}

/// The sum is linear in the weight.
proof fn lemma_witness_sum_plus<F: BinaryField>(
    words: Seq<Word>,
    f: spec_fn(int, int, int) -> F,
    c: F,
    g: spec_fn(int, int, int) -> F,
)
    ensures
        witness_sum(words, |y: int, j: int, s: int| f(y, j, s).plus(c.times(g(y, j, s))))
            == witness_sum(words, f).plus(c.times(witness_sum(words, g))),
{
    let h = |y: int, j: int, s: int| f(y, j, s).plus(c.times(g(y, j, s)));
    let fy = |y: int|
        sum(|j: int| keep_if(bit64(words[y].0, j), sum(|s: int| f(y, j, s), 64)), 64);
    let gy = |y: int|
        sum(|j: int| keep_if(bit64(words[y].0, j), sum(|s: int| g(y, j, s), 64)), 64);
    let hy = |y: int|
        sum(|j: int| keep_if(bit64(words[y].0, j), sum(|s: int| h(y, j, s), 64)), 64);
    let both = |y: int| fy(y).plus(c.times(gy(y)));
    assert forall|y: int| 0 <= y < words.len() implies #[trigger] hy(y) == both(y) by {
        let fj = |j: int| keep_if(bit64(words[y].0, j), sum(|s: int| f(y, j, s), 64));
        let gj = |j: int| keep_if(bit64(words[y].0, j), sum(|s: int| g(y, j, s), 64));
        let hj = |j: int| keep_if(bit64(words[y].0, j), sum(|s: int| h(y, j, s), 64));
        let bj = |j: int| fj(j).plus(c.times(gj(j)));
        assert forall|j: int| 0 <= j < 64 implies #[trigger] hj(j) == bj(j) by {
            let fs = |s: int| f(y, j, s);
            let gs = |s: int| g(y, j, s);
            lemma_sum_ext(
                |s: int| h(y, j, s),
                |s: int| fs(s).plus((|s: int| c.times(gs(s)))(s)),
                64,
            );
            lemma_sum_plus(fs, |s: int| c.times(gs(s)), 64);
            lemma_sum_scale(c, gs, 64);
            lemma_zero(c);
            lemma_zero(F::zero_of());
        }
        lemma_sum_ext(hj, bj, 64);
        lemma_sum_ext(bj, |j: int| fj(j).plus((|j: int| c.times(gj(j)))(j)), 64);
        lemma_sum_plus(fj, |j: int| c.times(gj(j)), 64);
        lemma_sum_scale(c, gj, 64);
    }
    lemma_sum_ext(hy, both, words.len());
    lemma_sum_ext(both, |y: int| fy(y).plus((|y: int| c.times(gy(y)))(y)), words.len());
    lemma_sum_plus(fy, |y: int| c.times(gy(y)), words.len());
    lemma_sum_scale(c, gy, words.len());
}

proof fn lemma_witness_sum_linear<F: BinaryField>(
    words: Seq<Word>,
    c: spec_fn(int) -> F,
    f: spec_fn(int, int, int, int) -> F,
    n: nat,
)
    ensures
        witness_sum(
            words,
            |y: int, j: int, s: int| sum(|m: int| c(m).times(f(m, y, j, s)), n),
        ) == sum(
            |m: int| c(m).times(witness_sum(words, |y: int, j: int, s: int| f(m, y, j, s))),
            n,
        ),
    decreases n,
{
    let all = |y: int, j: int, s: int| sum(|m: int| c(m).times(f(m, y, j, s)), n);
    let right = |m: int| c(m).times(witness_sum(words, |y: int, j: int, s: int| f(m, y, j, s)));
    if n == 0 {
        lemma_witness_sum_zero(words, all);
    } else {
        let k = n - 1;
        lemma_witness_sum_linear(words, c, f, k as nat);
        let head = |y: int, j: int, s: int| sum(|m: int| c(m).times(f(m, y, j, s)), k as nat);
        let last = |y: int, j: int, s: int| f(k, y, j, s);
        lemma_witness_sum_plus(words, head, c(k), last);
        let both = |y: int, j: int, s: int| head(y, j, s).plus(c(k).times(last(y, j, s)));
        assert forall|y: int, j: int, s: int|
            0 <= y < words.len() && 0 <= j < 64 && 0 <= s < 64 implies #[trigger] all(y, j, s)
            == both(y, j, s) by {
            let g = |m: int| c(m).times(f(m, y, j, s));
            assert(sum(g, n) == sum(g, k as nat).plus(g(k)));
        }
        lemma_witness_sum_ext(words, all, both);
        assert(sum(right, n) == sum(right, k as nat).plus(right(k)));
        assert((|y: int, j: int, s: int| f(k, y, j, s)) =~= last);
    }
}

/// At vertices of the source bit and the amount, the selector weighs the target bits that the shift
/// takes from the source bit.
pub proof fn lemma_selector_at_vertices<F: BinaryField>(
    v: ShiftVariant,
    l: Seq<F>,
    j: int,
    s: int,
)
    requires
        0 <= j < 64,
        0 <= s < 64,
    ensures
        selector(v, l, bit_point::<F>(6, j), bit_point::<F>(6, s)) == sum(
            |i: int| keep_if(source_bit(v, i, s) == Some(j), l[i]),
            64,
        ),
{
    lemma2_to64();
    let (rj, rs) = (bit_point::<F>(6, j), bit_point::<F>(6, s));
    let f = |i: int| l[i].times(selector_at(v, rj, rs, i));
    let want = |i: int| keep_if(source_bit(v, i, s) == Some(j), l[i]);
    assert forall|i: int| 0 <= i < 64 implies #[trigger] f(i) == want(i) by {
        let g = |t: int| eq_weight(rs, t).times(source_weight(v, rj, i, t));
        assert forall|t: int| 0 <= t < 64 && t != s implies #[trigger] g(t) == F::zero_of() by {
            lemma_eq_weight_vertex::<F>(6, s, t);
            lemma_zero(source_weight(v, rj, i, t));
        }
        lemma_sum_single(g, s, 64);
        lemma_eq_weight_vertex::<F>(6, s, s);
        lemma_zero(source_weight(v, rj, i, s));
        lemma_zero(l[i]);
        match source_bit(v, i, s) {
            Some(t) => {
                lemma_eq_weight_vertex::<F>(6, j, t);
            },
            None => {},
        }
    }
    lemma_sum_ext(f, want, 64);
}

/// Over all source bits of a word, the selector at vertices weighs the bits of the shifted word.
pub proof fn lemma_selector_shifts_words<F: BinaryField>(
    word: u64,
    v: ShiftVariant,
    l: Seq<F>,
    s: int,
)
    requires
        0 <= s < 64,
    ensures
        sum(
            |j: int|
                keep_if(
                    bit64(word, j),
                    selector(v, l, bit_point::<F>(6, j), bit_point::<F>(6, s)),
                ),
            64,
        ) == word_weight(shifted_word(word, v, s), l),
{
    let f = |j: int, i: int|
        keep_if(bit64(word, j), keep_if(source_bit(v, i, s) == Some(j), l[i]));
    lemma_sum_exchange(f, 64, 64);
    let left = |j: int|
        keep_if(bit64(word, j), selector(v, l, bit_point::<F>(6, j), bit_point::<F>(6, s)));
    let rows = |j: int| sum(|i: int| f(j, i), 64);
    assert forall|j: int| 0 <= j < 64 implies #[trigger] left(j) == rows(j) by {
        lemma_selector_at_vertices(v, l, j, s);
        let g = |i: int| keep_if(source_bit(v, i, s) == Some(j), l[i]);
        if bit64(word, j) {
            lemma_sum_ext(g, |i: int| f(j, i), 64);
        } else {
            lemma_sum_zero(|i: int| f(j, i), 64);
        }
    }
    lemma_sum_ext(left, rows, 64);
    let cols = |i: int| sum(|j: int| f(j, i), 64);
    let want = |i: int| keep_if(bit64(shifted_word(word, v, s), i), l[i]);
    assert forall|i: int| 0 <= i < 64 implies #[trigger] cols(i) == want(i) by {
        lemma_source_bit(word, v, i, s);
        let g = |j: int| f(j, i);
        match source_bit(v, i, s) {
            Some(j) => {
                assert(0 <= j < 64);
                lemma_sum_single(g, j, 64);
            },
            None => {
                lemma_sum_zero(g, 64);
            },
        }
    }
    lemma_sum_ext(cols, want, 64);
}

/// Summed against the words, a term's share at vertices is the weight of the term's word.
proof fn lemma_term_reads_words<F: BinaryField>(
    words: Seq<Word>,
    t: ShiftedValueIndex,
    l: Seq<F>,
    n_y: nat,
)
    requires
        words.len() == pow2(n_y),
        t.value_index.0 < words.len(),
        t.amount < 64,
    ensures
        witness_sum(
            words,
            |y: int, j: int, s: int|
                term_share(
                    t,
                    l,
                    bit_point::<F>(6, j),
                    bit_point::<F>(6, s),
                    bit_point::<F>(n_y, y),
                ),
        ) == word_weight(term_value(words, t), l),
{
    lemma2_to64();
    let f = |y: int, j: int, s: int|
        term_share(
            t,
            l,
            bit_point::<F>(6, j),
            bit_point::<F>(6, s),
            bit_point::<F>(n_y, y),
        );
    let (y0, s0) = (t.value_index.0 as int, t.amount as int);
    let fy = |y: int|
        sum(|j: int| keep_if(bit64(words[y].0, j), sum(|s: int| f(y, j, s), 64)), 64);
    assert forall|y: int| 0 <= y < words.len() && y != y0 implies #[trigger] fy(y)
        == F::zero_of() by {
        lemma_eq_weight_vertex::<F>(n_y, y, y0);
        let fj = |j: int| keep_if(bit64(words[y].0, j), sum(|s: int| f(y, j, s), 64));
        assert forall|j: int| 0 <= j < 64 implies #[trigger] fj(j) == F::zero_of() by {
            let fs = |s: int| f(y, j, s);
            assert forall|s: int| 0 <= s < 64 implies #[trigger] fs(s) == F::zero_of() by {
                lemma_zero(
                    eq_weight(bit_point::<F>(6, s), s0).times(
                        selector(
                            t.shift_variant,
                            l,
                            bit_point::<F>(6, j),
                            bit_point::<F>(6, s),
                        ),
                    ),
                );
            }
            lemma_sum_zero(fs, 64);
        }
        lemma_sum_zero(fj, 64);
    }
    lemma_sum_single(fy, y0, words.len());
    let word = words[y0].0;
    let fj = |j: int| keep_if(bit64(word, j), sum(|s: int| f(y0, j, s), 64));
    let want = |j: int|
        keep_if(
            bit64(word, j),
            selector(t.shift_variant, l, bit_point::<F>(6, j), bit_point::<F>(6, s0)),
        );
    lemma_eq_weight_vertex::<F>(n_y, y0, y0);
    assert forall|j: int| 0 <= j < 64 implies #[trigger] fj(j) == want(j) by {
        let fs = |s: int| f(y0, j, s);
        assert forall|s: int| 0 <= s < 64 && s != s0 implies #[trigger] fs(s) == F::zero_of() by {
            lemma_eq_weight_vertex::<F>(6, s, s0);
            let sel = selector(
                t.shift_variant,
                l,
                bit_point::<F>(6, j),
                bit_point::<F>(6, s),
            );
            lemma_zero(sel);
            lemma_zero(F::one_of());
        }
        lemma_sum_single(fs, s0, 64);
        lemma_eq_weight_vertex::<F>(6, s0, s0);
        let sel = selector(t.shift_variant, l, bit_point::<F>(6, j), bit_point::<F>(6, s0));
        lemma_zero(sel);
    }
    lemma_sum_ext(fj, want, 64);
    lemma_selector_shifts_words(word, t.shift_variant, l, s0);
}

/// The weights of the words of an operand's terms add up to the weight of the operand's word.
proof fn lemma_operand_weight<F: BinaryField>(
    words: Seq<Word>,
    op: Seq<ShiftedValueIndex>,
    l: Seq<F>,
)
    ensures
        sum(|t: int| word_weight(term_value(words, op[t]), l), op.len()) == word_weight(
            operand_value(words, op),
            l,
        ),
    decreases op.len(),
{
    let f = |t: int| word_weight(term_value(words, op[t]), l);
    if op.len() == 0 {
        let z = |i: int| keep_if(bit64(0, i), l[i]);
        assert forall|i: int| 0 <= i < 64 implies #[trigger] z(i) == F::zero_of() by {
            lemma_bit_xor(0, 0, i as u64);
        }
        lemma_sum_zero(z, 64);
    } else {
        let (head, k) = (op.drop_last(), op.len() - 1);
        lemma_operand_weight(words, head, l);
        lemma_sum_ext(f, |t: int| word_weight(term_value(words, head[t]), l), k as nat);
        assert(sum(f, op.len()) == sum(f, k as nat).plus(f(k)));
        let (x, y) = (operand_value(words, head), term_value(words, op.last()));
        let a = |i: int| keep_if(bit64(x, i), l[i]);
        let b = |i: int| keep_if(bit64(y, i), l[i]);
        let c = |i: int| keep_if(bit64(x ^ y, i), l[i]);
        assert forall|i: int| 0 <= i < 64 implies #[trigger] c(i) == a(i).plus(b(i)) by {
            lemma_bit_xor(x, y, i as u64);
            lemma_zero(l[i]);
            lemma_zero(F::zero_of());
            F::lemma_plus(l[i], l[i], l[i]);
        }
        lemma_sum_ext(c, |i: int| a(i).plus(b(i)), 64);
        lemma_sum_plus(a, b, 64);
    }
}

/// The matrix polynomial takes the words of a witness to the operands of the constraints: summed
/// against the set bits of the words, over all values, source bits and amounts, it gives for every
/// constraint point and every weighing of the bits the batched operand words,
/// `sum_m lambda^(m + 1) sum_x eq(r_x, x) sum_i l_i bit_i(operand_m(x))`.
#[verifier::spinoff_prover]
#[verifier::rlimit(40)]
pub proof fn lemma_monster_reads_operands<F: BinaryField>(
    terms: spec_fn(int, int) -> Seq<ShiftedValueIndex>,
    arity: nat,
    words: Seq<Word>,
    r_x: Seq<F>,
    l: Seq<F>,
    lambda: F,
    n_y: nat,
)
    requires
        words.len() == pow2(n_y),
        rows_in_range(terms, arity, pow2(r_x.len()), pow2(n_y)),
    ensures
        witness_sum(
            words,
            |y: int, j: int, s: int|
                monster_value(
                    terms,
                    arity,
                    r_x,
                    l,
                    lambda,
                    bit_point::<F>(6, j),
                    bit_point::<F>(6, s),
                    bit_point::<F>(n_y, y),
                ),
        ) == sum(
            |m: int|
                pow_of(lambda, (m + 1) as nat).times(
                    sum(
                        |row: int|
                            eq_weight(r_x, row).times(
                                word_weight(operand_value(words, terms(m, row)), l),
                            ),
                        pow2(r_x.len()),
                    ),
                ),
            arity,
        ),
{
    lemma2_to64();
    let n = pow2(r_x.len());
    let share = |op: Seq<ShiftedValueIndex>, t: int, y: int, j: int, s: int|
        term_share(
            op[t],
            l,
            bit_point::<F>(6, j),
            bit_point::<F>(6, s),
            bit_point::<F>(n_y, y),
        );
    let op_sum = |m: int, row: int, y: int, j: int, s: int|
        sum(|t: int| share(terms(m, row), t, y, j, s), terms(m, row).len());
    let row_sum = |m: int, y: int, j: int, s: int|
        sum(|row: int| eq_weight(r_x, row).times(op_sum(m, row, y, j, s)), n);
    let c = |m: int| pow_of(lambda, (m + 1) as nat);
    let all = |y: int, j: int, s: int|
        monster_value(
            terms,
            arity,
            r_x,
            l,
            lambda,
            bit_point::<F>(6, j),
            bit_point::<F>(6, s),
            bit_point::<F>(n_y, y),
        );
    let all2 = |y: int, j: int, s: int| sum(|m: int| c(m).times(row_sum(m, y, j, s)), arity);
    assert forall|y: int, j: int, s: int|
        0 <= y < words.len() && 0 <= j < 64 && 0 <= s < 64 implies #[trigger] all(y, j, s) == all2(
        y,
        j,
        s,
    ) by {
        let (rj, rs, ry) = (
            bit_point::<F>(6, j),
            bit_point::<F>(6, s),
            bit_point::<F>(n_y, y),
        );
        lemma_eq_weight_vertex::<F>(6, s, s);
        lemma_eq_weight_vertex::<F>(n_y, y, y);
        lemma_monster_sums_terms(terms, arity, r_x, l, lambda, rj, rs, ry);
        let p = |m: int|
            pow_of(lambda, (m + 1) as nat).times(
                sum(
                    |row: int|
                        eq_weight(r_x, row).times(
                            sum(
                                |t: int| term_share(terms(m, row)[t], l, rj, rs, ry),
                                terms(m, row).len(),
                            ),
                        ),
                    n,
                ),
            );
        let q = |m: int| c(m).times(row_sum(m, y, j, s));
        assert forall|m: int| 0 <= m < arity implies #[trigger] p(m) == q(m) by {
            let a = |row: int|
                eq_weight(r_x, row).times(
                    sum(
                        |t: int| term_share(terms(m, row)[t], l, rj, rs, ry),
                        terms(m, row).len(),
                    ),
                );
            let b = |row: int| eq_weight(r_x, row).times(op_sum(m, row, y, j, s));
            assert forall|row: int| 0 <= row < n implies #[trigger] a(row) == b(row) by {
                lemma_sum_ext(
                    |t: int| term_share(terms(m, row)[t], l, rj, rs, ry),
                    |t: int| share(terms(m, row), t, y, j, s),
                    terms(m, row).len(),
                );
            }
            lemma_sum_ext(a, b, n);
        }
        lemma_sum_ext(p, q, arity);
    }
    lemma_witness_sum_ext(words, all, all2);
    lemma_witness_sum_linear(words, c, row_sum, arity);
    let left = |m: int|
        c(m).times(witness_sum(words, |y: int, j: int, s: int| row_sum(m, y, j, s)));
    let want = |m: int|
        pow_of(lambda, (m + 1) as nat).times(
            sum(
                |row: int|
                    eq_weight(r_x, row).times(
                        word_weight(operand_value(words, terms(m, row)), l),
                    ),
                n,
            ),
        );
    assert forall|m: int| 0 <= m < arity implies #[trigger] left(m) == want(m) by {
        let x = |row: int| eq_weight(r_x, row);
        let os = |row: int, y: int, j: int, s: int| op_sum(m, row, y, j, s);
        lemma_witness_sum_linear(words, x, os, n);
        let f1 = |y: int, j: int, s: int| row_sum(m, y, j, s);
        let f2 = |y: int, j: int, s: int| sum(|row: int| x(row).times(os(row, y, j, s)), n);
        assert forall|y: int, j: int, s: int|
            0 <= y < words.len() && 0 <= j < 64 && 0 <= s < 64 implies #[trigger] f1(y, j, s)
            == f2(y, j, s) by {
            lemma_sum_ext(
                |row: int| eq_weight(r_x, row).times(op_sum(m, row, y, j, s)),
                |row: int| x(row).times(os(row, y, j, s)),
                n,
            );
        }
        lemma_witness_sum_ext(words, f1, f2);
        let a = |row: int|
            x(row).times(witness_sum(words, |y: int, j: int, s: int| os(row, y, j, s)));
        let b = |row: int|
            eq_weight(r_x, row).times(word_weight(operand_value(words, terms(m, row)), l));
        assert forall|row: int| 0 <= row < n implies #[trigger] a(row) == b(row) by {
            let op = terms(m, row);
            let one = |t: int| F::one_of();
            let sh = |t: int, y: int, j: int, s: int| share(op, t, y, j, s);
            lemma_witness_sum_linear(words, one, sh, op.len());
            let g1 = |y: int, j: int, s: int| os(row, y, j, s);
            let g2 = |y: int, j: int, s: int|
                sum(|t: int| one(t).times(sh(t, y, j, s)), op.len());
            assert forall|y: int, j: int, s: int|
                0 <= y < words.len() && 0 <= j < 64 && 0 <= s < 64 implies #[trigger] g1(y, j, s)
                == g2(y, j, s) by {
                let u = |t: int| share(terms(m, row), t, y, j, s);
                let v = |t: int| one(t).times(sh(t, y, j, s));
                assert forall|t: int| 0 <= t < op.len() implies #[trigger] u(t) == v(t) by {
                    lemma_zero(u(t));
                }
                lemma_sum_ext(u, v, op.len());
            }
            lemma_witness_sum_ext(words, g1, g2);
            let e1 = |t: int|
                one(t).times(witness_sum(words, |y: int, j: int, s: int| sh(t, y, j, s)));
            let e2 = |t: int| word_weight(term_value(words, op[t]), l);
            assert forall|t: int| 0 <= t < op.len() implies #[trigger] e1(t) == e2(t) by {
                assert(terms(m, row)[t].value_index.0 < pow2(n_y));
                lemma_term_reads_words(words, op[t], l, n_y);
                lemma_witness_sum_ext(
                    words,
                    |y: int, j: int, s: int| sh(t, y, j, s),
                    |y: int, j: int, s: int|
                        term_share(
                            op[t],
                            l,
                            bit_point::<F>(6, j),
                            bit_point::<F>(6, s),
                            bit_point::<F>(n_y, y),
                        ),
                );
                lemma_zero(e2(t));
            }
            lemma_sum_ext(e1, e2, op.len());
            lemma_operand_weight(words, op, l);
        }
        lemma_sum_ext(a, b, n);
    }
    lemma_sum_ext(left, want, arity);
}

} // verus!
