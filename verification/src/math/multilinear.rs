//! Equality indicators and multilinear extensions. Variable 0 is the lowest bit of an index.
use super::sums::{
    inner_product, lemma_distr, lemma_sum_ext, lemma_sum_scale, lemma_sum_split, lemma_times_swap,
    lemma_zero, sum,
};
use crate::field::BinaryField;
use vstd::arithmetic::power2::{lemma2_to64, lemma_pow2_adds, lemma_pow2_pos, lemma_pow2_unfold, pow2};
use vstd::prelude::*;

verus! {

/// The weight of index `i` at the point `r`: the product over the variables of `r_k` where bit
/// `k` of `i` is set, and of `1 + r_k` where it is not.
pub open spec fn eq_weight<F: BinaryField>(r: Seq<F>, i: int) -> F
    decreases r.len(),
{
    if r.len() == 0 {
        F::one_of()
    } else {
        let half = pow2((r.len() - 1) as nat) as int;
        if i < half {
            eq_weight(r.drop_last(), i).times(F::one_of().plus(r.last()))
        } else {
            eq_weight(r.drop_last(), i - half).times(r.last())
        }
    }
}

/// The weights of all indices.
pub open spec fn eq_weights<F: BinaryField>(r: Seq<F>) -> Seq<F> {
    Seq::new(pow2(r.len()), |i: int| eq_weight(r, i))
}

/// The equality indicator of two points: the product of `a_k b_k + (1 + a_k)(1 + b_k)`.
pub open spec fn eq_of<F: BinaryField>(a: Seq<F>, b: Seq<F>) -> F
    decreases a.len(),
{
    if a.len() == 0 {
        F::one_of()
    } else {
        eq_of(a.drop_last(), b.drop_last()).times(
            F::one_of().plus(a.last()).times(F::one_of().plus(b.last())).plus(
                a.last().times(b.last()),
            ),
        )
    }
}

/// The multilinear extension of `evals` at `r`.
pub open spec fn mle<F: BinaryField>(evals: Seq<F>, r: Seq<F>) -> F {
    sum(|i: int| eq_weight(r, i).times(evals[i]), pow2(r.len()))
}

/// The weights of all indices at the point `r`.
pub fn eq_ind_partial_eval_scalars<F: BinaryField>(r: &[F]) -> (w: Vec<F>)
    requires
        pow2(r@.len()) <= usize::MAX,
    ensures
        w@ == eq_weights(r@),
{
    let mut w: Vec<F> = Vec::new();
    w.push(F::one());
    let n: usize = r.len();
    proof {
        lemma2_to64();
        assert(r@.take(0) =~= Seq::<F>::empty());
        assert(w@ =~= eq_weights(r@.take(0)));
    }
    for k in 0..n
        invariant
            n == r@.len(),
            pow2(n as nat) <= usize::MAX,
            w@ =~= eq_weights(r@.take(k as int)),
    {
        let half: usize = w.len();
        let ghost before = r@.take(k as int);
        let ghost after = r@.take(k + 1);
        let rk = r[k];
        let ork = F::one().add(rk);
        let ghost old_w = w@;
        proof {
            assert(after.drop_last() =~= before);
            lemma_pow2_unfold((k + 1) as nat);
            assert(half == pow2(k as nat));
        }
        for j in 0..half
            invariant
                half == pow2(k as nat),
                old_w.len() == half,
                old_w == eq_weights(before),
                after.len() == k + 1,
                after.drop_last() == before,
                after.last() == rk,
                w@.len() == half + j,
                forall|i: int| 0 <= i < half ==> #[trigger] w@[i] == old_w[i],
                forall|i: int| half <= i < half + j ==> #[trigger] w@[i] == eq_weight(after, i),
        {
            let hi = w[j].mul(rk);
            w.push(hi);
        }
        for j in 0..half
            invariant
                half == pow2(k as nat),
                old_w.len() == half,
                old_w == eq_weights(before),
                after.len() == k + 1,
                after.drop_last() == before,
                after.last() == rk,
                ork == F::one_of().plus(rk),
                w@.len() == 2 * half,
                forall|i: int| 0 <= i < j ==> #[trigger] w@[i] == eq_weight(after, i),
                forall|i: int| j <= i < half ==> #[trigger] w@[i] == old_w[i],
                forall|i: int| half <= i < 2 * half ==> #[trigger] w@[i] == eq_weight(after, i),
        {
            let lo = w[j].mul(ork);
            w[j] = lo;
        }
        assert(w@ =~= eq_weights(after));
    }
    assert(r@.take(n as int) =~= r@);
    w
}

/// The equality indicator of two points of the same length.
pub fn eq_ind<F: BinaryField>(a: &[F], b: &[F]) -> (r: F)
    requires
        a@.len() == b@.len(),
    ensures
        r == eq_of(a@, b@),
{
    let mut acc = F::one();
    let n: usize = a.len();
    assert(a@.take(0) =~= Seq::<F>::empty());
    for k in 0..n
        invariant
            n == a@.len(),
            n == b@.len(),
            acc == eq_of(a@.take(k as int), b@.take(k as int)),
    {
        let one = F::one();
        let term = one.add(a[k]).mul(one.add(b[k])).add(a[k].mul(b[k]));
        acc = acc.mul(term);
        proof {
            assert(a@.take(k + 1).drop_last() =~= a@.take(k as int));
            assert(b@.take(k + 1).drop_last() =~= b@.take(k as int));
        }
    }
    assert(a@.take(n as int) =~= a@);
    assert(b@.take(n as int) =~= b@);
    acc
}

/// The multilinear extension of `evals` at `r`.
pub fn evaluate_scalars<F: BinaryField>(evals: &[F], r: &[F]) -> (v: F)
    requires
        evals@.len() == pow2(r@.len()),
    ensures
        v == mle(evals@, r@),
{
    let n: usize = evals.len();
    let w = eq_ind_partial_eval_scalars(r);
    let v = inner_product(w.as_slice(), evals);
    proof {
        lemma_sum_ext(
            |i: int| w@[i].times(evals@[i]),
            |i: int| eq_weight(r@, i).times(evals@[i]),
            n as nat,
        );
    }
    v
}

/// The weight of an index whose low and high parts are addressed by separate variables is the
/// product of the weights of the parts.
pub proof fn lemma_eq_weight_concat<F: BinaryField>(lo: Seq<F>, hi: Seq<F>, i: int, u: int)
    requires
        0 <= i < pow2(lo.len()),
        0 <= u < pow2(hi.len()),
    ensures
        eq_weight(lo + hi, u * pow2(lo.len()) + i) == eq_weight(lo, i).times(eq_weight(hi, u)),
    decreases hi.len(),
{
    let m = pow2(lo.len()) as int;
    lemma_pow2_pos(lo.len());
    if hi.len() == 0 {
        lemma2_to64();
        assert(u == 0);
        assert(u * m == 0) by (nonlinear_arith)
            requires
                u == 0,
        ;
        assert(lo + hi =~= lo);
        lemma_zero(eq_weight(lo, i));
    } else {
        let r = lo + hi;
        assert(r.drop_last() =~= lo + hi.drop_last());
        assert(r.last() == hi.last());
        let h = pow2((hi.len() - 1) as nat) as int;
        lemma_pow2_adds(lo.len(), (hi.len() - 1) as nat);
        lemma_pow2_unfold(hi.len());
        let half = pow2((r.len() - 1) as nat) as int;
        assert(half == h * m) by (nonlinear_arith)
            requires
                half == m * h,
        ;
        let idx = u * m + i;
        if u < h {
            assert(u * m + m <= h * m) by (nonlinear_arith)
                requires
                    u + 1 <= h,
                    m > 0,
            ;
            lemma_eq_weight_concat(lo, hi.drop_last(), i, u);
            F::lemma_times(
                eq_weight(lo, i),
                eq_weight(hi.drop_last(), u),
                F::one_of().plus(hi.last()),
            );
        } else {
            assert(idx >= half && idx - half == (u - h) * m + i) by (nonlinear_arith)
                requires
                    idx == u * m + i,
                    half == h * m,
                    u >= h,
                    i >= 0,
                    m > 0,
            ;
            lemma_eq_weight_concat(lo, hi.drop_last(), i, u - h);
            F::lemma_times(eq_weight(lo, i), eq_weight(hi.drop_last(), u - h), hi.last());
        }
    }
}

/// Summing the products of the weights at two points over all indices gives the equality
/// indicator of the points.
pub proof fn lemma_eq_weight_products<F: BinaryField>(a: Seq<F>, b: Seq<F>)
    requires
        a.len() == b.len(),
    ensures
        sum(|u: int| eq_weight(a, u).times(eq_weight(b, u)), pow2(a.len())) == eq_of(a, b),
    decreases a.len(),
{
    let f = |u: int| eq_weight(a, u).times(eq_weight(b, u));
    if a.len() == 0 {
        lemma2_to64();
        lemma_zero(F::one_of());
        assert(pow2(0) == 1);
        reveal_with_fuel(sum, 2);
        assert(f(0) == F::one_of().times(F::one_of()));
        assert(sum(f, 1) == sum(f, 0).plus(f(0)));
    } else {
        let (pa, pb) = (a.drop_last(), b.drop_last());
        let half = pow2(pa.len());
        lemma_pow2_unfold(a.len());
        assert(pow2(a.len()) == half + half);
        lemma_sum_split(f, half, half);
        let g = |u: int| eq_weight(pa, u).times(eq_weight(pb, u));
        let (la, lb) = (F::one_of().plus(a.last()), F::one_of().plus(b.last()));
        let lo = la.times(lb);
        let hi = a.last().times(b.last());
        let fh = |i: int| f(half + i);
        assert forall|u: int| 0 <= u < half implies #[trigger] f(u) == lo.times(g(u)) by {
            lemma_times_swap(eq_weight(pa, u), la, eq_weight(pb, u), lb);
            F::lemma_times(g(u), lo, lo);
        }
        assert forall|u: int| 0 <= u < half implies #[trigger] fh(u) == hi.times(g(u)) by {
            lemma_times_swap(eq_weight(pa, u), a.last(), eq_weight(pb, u), b.last());
            F::lemma_times(g(u), hi, hi);
            assert(half + u - half == u);
        }
        lemma_sum_ext(f, |u: int| lo.times(g(u)), half);
        lemma_sum_ext(fh, |u: int| hi.times(g(u)), half);
        lemma_sum_scale(lo, g, half);
        lemma_sum_scale(hi, g, half);
        lemma_eq_weight_products(pa, pb);
        lemma_distr(lo, hi, eq_of(pa, pb));
        F::lemma_times(lo.plus(hi), eq_of(pa, pb), lo);
    }
}

/// The point whose coordinates are the bits of `i`.
pub open spec fn bit_point<F: BinaryField>(n: nat, i: int) -> Seq<F>
    decreases n,
{
    if n == 0 {
        Seq::empty()
    } else {
        let half = pow2((n - 1) as nat) as int;
        if i < half {
            bit_point::<F>((n - 1) as nat, i).push(F::zero_of())
        } else {
            bit_point::<F>((n - 1) as nat, i - half).push(F::one_of())
        }
    }
}

/// At the point of index `i` the weight of `i` is one and every other weight is zero.
pub proof fn lemma_eq_weight_vertex<F: BinaryField>(n: nat, i: int, j: int)
    requires
        0 <= i < pow2(n),
        0 <= j < pow2(n),
    ensures
        bit_point::<F>(n, i).len() == n,
        eq_weight(bit_point::<F>(n, i), j) == (if i == j {
            F::one_of()
        } else {
            F::zero_of()
        }),
    decreases n,
{
    if n == 0 {
        lemma2_to64();
    } else {
        let half = pow2((n - 1) as nat) as int;
        lemma_pow2_unfold(n);
        let ii = if i < half {
            i
        } else {
            i - half
        };
        let jj = if j < half {
            j
        } else {
            j - half
        };
        lemma_eq_weight_vertex::<F>((n - 1) as nat, ii, jj);
        let p = bit_point::<F>(n, i);
        assert(p.drop_last() =~= bit_point::<F>((n - 1) as nat, ii));
        let one = F::one_of();
        lemma_zero(one);
        lemma_zero(F::zero_of());
        F::lemma_plus(one, one, one);
    }
}

/// The product over the coordinates, the first one first, of the coordinate where the bit of the
/// index is set and of one plus the coordinate where it is not. Coordinate `k` goes with bit `k`.
pub open spec fn coordinate_product<F: BinaryField>(r: Seq<F>, i: int) -> F
    decreases r.len(),
{
    if r.len() == 0 {
        F::one_of()
    } else {
        (if i % 2 == 1 {
            r[0]
        } else {
            F::one_of().plus(r[0])
        }).times(coordinate_product(r.drop_first(), i / 2))
    }
}

proof fn lemma_coordinate_product_last<F: BinaryField>(r: Seq<F>, i: int)
    requires
        r.len() > 0,
        0 <= i < pow2(r.len()),
    ensures
        coordinate_product(r, i) == (if i < pow2((r.len() - 1) as nat) {
            coordinate_product(r.drop_last(), i).times(F::one_of().plus(r.last()))
        } else {
            coordinate_product(r.drop_last(), i - pow2((r.len() - 1) as nat)).times(r.last())
        }),
    decreases r.len(),
{
    lemma2_to64();
    lemma_pow2_unfold(r.len());
    let half = pow2((r.len() - 1) as nat) as int;
    if r.len() == 1 {
        assert(half == 1);
        assert(r.drop_first() =~= Seq::<F>::empty());
        assert(r.drop_last() =~= Seq::<F>::empty());
        lemma_zero(r[0]);
        lemma_zero(F::one_of().plus(r[0]));
    } else {
        lemma_pow2_unfold((r.len() - 1) as nat);
        let rest = r.drop_first();
        assert(rest.drop_last() =~= r.drop_last().drop_first());
        lemma_coordinate_product_last(rest, i / 2);
        let first = if i % 2 == 1 {
            r[0]
        } else {
            F::one_of().plus(r[0])
        };
        let quarter = pow2((r.len() - 2) as nat) as int;
        if i < half {
            F::lemma_times(
                first,
                coordinate_product(rest.drop_last(), i / 2),
                F::one_of().plus(r.last()),
            );
        } else {
            assert((i - half) / 2 == i / 2 - quarter && (i - half) % 2 == i % 2);
            F::lemma_times(
                first,
                coordinate_product(rest.drop_last(), i / 2 - quarter),
                r.last(),
            );
        }
    }
}

/// The weight of an index is the product over the coordinates: coordinate `k` of the point goes with
/// bit `k` of the index, the lowest bit first.
pub proof fn lemma_eq_weight_is_product<F: BinaryField>(r: Seq<F>, i: int)
    requires
        0 <= i < pow2(r.len()),
    ensures
        eq_weight(r, i) == coordinate_product(r, i),
    decreases r.len(),
{
    lemma2_to64();
    if r.len() > 0 {
        lemma_pow2_unfold(r.len());
        lemma_coordinate_product_last(r, i);
        let half = pow2((r.len() - 1) as nat) as int;
        if i < half {
            lemma_eq_weight_is_product(r.drop_last(), i);
        } else {
            lemma_eq_weight_is_product(r.drop_last(), i - half);
        }
    }
}

/// At a point whose coordinates are the bits of `i`, coordinate `k` being bit `k`, the product of
/// the coordinates of `j` is one for `i` and zero for every other index.
proof fn lemma_coordinate_product_vertex<F: BinaryField>(r: Seq<F>, i: int, j: int)
    requires
        0 <= i < pow2(r.len()),
        0 <= j < pow2(r.len()),
        forall|k: int|
            0 <= k < r.len() ==> #[trigger] r[k] == (if (i / pow2(k as nat) as int) % 2 == 1 {
                F::one_of()
            } else {
                F::zero_of()
            }),
    ensures
        coordinate_product(r, j) == (if i == j {
            F::one_of()
        } else {
            F::zero_of()
        }),
    decreases r.len(),
{
    lemma2_to64();
    if r.len() > 0 {
        lemma_pow2_unfold(r.len());
        let rest = r.drop_first();
        assert(r[0] == (if (i / pow2(0) as int) % 2 == 1 {
            F::one_of()
        } else {
            F::zero_of()
        }));
        assert forall|k: int| 0 <= k < rest.len() implies #[trigger] rest[k] == (if ((i / 2)
            / pow2(k as nat) as int) % 2 == 1 {
            F::one_of()
        } else {
            F::zero_of()
        }) by {
            assert(rest[k] == r[k + 1]);
            lemma_pow2_unfold((k + 1) as nat);
            lemma_pow2_pos(k as nat);
            let p = pow2(k as nat) as int;
            vstd::arithmetic::div_mod::lemma_div_denominator(i, 2, p);
            assert(i / (2 * p) == (i / 2) / p);
        }
        lemma_coordinate_product_vertex(rest, i / 2, j / 2);
        lemma_zero(F::one_of());
        lemma_zero(F::zero_of());
        F::lemma_plus(F::one_of(), F::one_of(), F::one_of());
        assert(i == j <==> (i % 2 == j % 2 && i / 2 == j / 2));
    }
}

/// A multilinear extension agrees with its evaluations: at a point whose coordinates are the bits of
/// `i`, coordinate `k` being bit `k` of `i`, it is evaluation `i`.
pub proof fn lemma_mle_at_vertex<F: BinaryField>(evals: Seq<F>, r: Seq<F>, i: int)
    requires
        0 <= i < pow2(r.len()),
        forall|k: int|
            0 <= k < r.len() ==> #[trigger] r[k] == (if (i / pow2(k as nat) as int) % 2 == 1 {
                F::one_of()
            } else {
                F::zero_of()
            }),
    ensures
        mle(evals, r) == evals[i],
{
    let f = |j: int| eq_weight(r, j).times(evals[j]);
    assert forall|j: int| 0 <= j < pow2(r.len()) && j != i implies #[trigger] f(j)
        == F::zero_of() by {
        lemma_eq_weight_is_product(r, j);
        lemma_coordinate_product_vertex(r, i, j);
        lemma_zero(evals[j]);
    }
    super::sums::lemma_sum_single(f, i, pow2(r.len()));
    lemma_eq_weight_is_product(r, i);
    lemma_coordinate_product_vertex(r, i, i);
    lemma_zero(evals[i]);
}

/// Coordinate `k` of the point of an index is bit `k` of the index.
pub proof fn lemma_bit_point_coordinate<F: BinaryField>(n: nat, i: int, k: int)
    requires
        0 <= i < pow2(n),
        0 <= k < n,
    ensures
        bit_point::<F>(n, i).len() == n,
        bit_point::<F>(n, i)[k] == (if (i / pow2(k as nat) as int) % 2 == 1 {
            F::one_of()
        } else {
            F::zero_of()
        }),
    decreases n,
{
    lemma_eq_weight_vertex::<F>(n, i, i);
    lemma_pow2_unfold(n);
    let half = pow2((n - 1) as nat) as int;
    let ii = if i < half {
        i
    } else {
        i - half
    };
    lemma_eq_weight_vertex::<F>((n - 1) as nat, ii, ii);
    if k == n - 1 {
        vstd::arithmetic::div_mod::lemma_fundamental_div_mod_converse(
            i,
            half,
            if i < half {
                0
            } else {
                1
            },
            ii,
        );
    } else {
        lemma_bit_point_coordinate::<F>((n - 1) as nat, ii, k);
        if i >= half {
            // dropping the top bit keeps bit k
            let p = pow2(k as nat) as int;
            lemma_pow2_pos(k as nat);
            lemma_pow2_adds(k as nat, (n - 1 - k) as nat);
            lemma_pow2_unfold((n - 1 - k) as nat);
            let q = pow2((n - 2 - k) as nat) as int;
            assert(half == p * (2 * q));
            assert(i == p * (2 * q) + ii);
            vstd::arithmetic::div_mod::lemma_hoist_over_denominator(ii, 2 * q, p as nat);
            assert((2 * q) * p == p * (2 * q)) by (nonlinear_arith);
            assert(i / p == ii / p + 2 * q);
        }
    }
}

} // verus!
