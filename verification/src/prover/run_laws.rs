//! Laws of a proof: how the words of a value vector are packed, where the public elements are
//! checked, and that the batched relation of the committed witness is true.
use super::run::{batched_claim_of, combined_evals, pubcheck_point_of, IntMulOutput};
use super::witness::{batched_transparent_at, packed_element, packed_witness};
use crate::constraint_system::Word;
use crate::field::{BinaryField, BinaryField128bGhash, B128};
use crate::math::lagrange::{lagrange_of, lemma_lagrange_one, lemma_lagrange_vanishes};
use crate::math::multilinear::{
    coordinate_product, eq_weight, lemma_eq_weight_is_product, lemma_mle_at_vertex, mle,
};
use crate::math::subspace::{
    canonical_basis, lemma_canonical_points, lemma_canonical_points_differ, subspace_points,
};
use crate::math::sums::{
    inner, lemma_distr, lemma_sum_ext, lemma_sum_plus, lemma_sum_scale, lemma_sum_single,
    lemma_sum_tail, lemma_zero, sum,
};
use vstd::arithmetic::power2::{lemma2_to64, pow2};
use vstd::prelude::*;

verus! {

/// Every committed word can be read back from the packed witness: word `k` is the low half of
/// element `k / 2` where `k` is even, and its high half where `k` is odd.
pub proof fn lemma_packed_words_read_back(words: Seq<Word>, n: nat, k: int)
    requires
        0 <= k < 2 * n,
    ensures
        packed_witness(words, n).len() == n,
        words[k].0 == (if k % 2 == 0 {
            packed_witness(words, n)[k / 2].0 % 0x1_0000_0000_0000_0000
        } else {
            packed_witness(words, n)[k / 2].0 / 0x1_0000_0000_0000_0000
        }),
{
    let j = k / 2;
    let (lo, hi) = (words[2 * j].0 as int, words[2 * j + 1].0 as int);
    let m = 0x1_0000_0000_0000_0000int;
    assert(packed_witness(words, n)[j] == packed_element(words[2 * j], words[2 * j + 1]));
    assert(packed_element(words[2 * j], words[2 * j + 1]).0 == lo + hi * m);
    assert(k == 2 * j || k == 2 * j + 1);
    vstd::arithmetic::div_mod::lemma_fundamental_div_mod_converse(lo + hi * m, m, hi, lo);
}

/// The coordinates of the public check, those behind the seven that address a bit inside an element.
pub open spec fn public_coordinates(eval_point: Seq<B128>, k: nat) -> Seq<B128> {
    Seq::new(k, |b: int| eval_point[7 + b])
}

/// Where the coordinates behind the seventh are the bits of an index, coordinate `7 + b` being bit
/// `b`, the public check reads the public element of that index.
pub proof fn lemma_public_check_at_vertex(
    sumcheck_claim: B128,
    public_elems: Seq<B128>,
    eval_point: Seq<B128>,
    k: nat,
    batch_coeff: B128,
    i: int,
)
    requires
        eval_point.len() >= 7 + k,
        0 <= i < pow2(k),
        forall|b: int|
            0 <= b < k ==> #[trigger] eval_point[7 + b] == (if (i / pow2(b as nat) as int) % 2
                == 1 {
                B128::one_of()
            } else {
                B128::zero_of()
            }),
    ensures
        batched_claim_of(sumcheck_claim, public_elems, eval_point, k as int, batch_coeff)
            == sumcheck_claim.plus(batch_coeff.times(public_elems[i])),
{
    let point = pubcheck_point_of(eval_point, k as int);
    assert(point =~= public_coordinates(eval_point, k));
    assert forall|b: int| 0 <= b < point.len() implies #[trigger] point[b] == (if (i / pow2(
        b as nat,
    ) as int) % 2 == 1 {
        B128::one_of()
    } else {
        B128::zero_of()
    }) by {
        assert(point[b] == eval_point[7 + b]);
    }
    lemma_mle_at_vertex(public_elems, point, i);
}

/// At any point the public check weighs public element `i` by the product over the bits `b` of `i`
/// of coordinate `7 + b` where the bit is set, and of one plus it where it is not.
pub proof fn lemma_public_check_weights(
    sumcheck_claim: B128,
    public_elems: Seq<B128>,
    eval_point: Seq<B128>,
    k: nat,
    batch_coeff: B128,
)
    requires
        eval_point.len() >= 7 + k,
    ensures
        batched_claim_of(sumcheck_claim, public_elems, eval_point, k as int, batch_coeff)
            == sumcheck_claim.plus(
            batch_coeff.times(
                sum(
                    |i: int|
                        coordinate_product(public_coordinates(eval_point, k), i).times(
                            public_elems[i],
                        ),
                    pow2(k),
                ),
            ),
        ),
{
    let point = pubcheck_point_of(eval_point, k as int);
    assert(point =~= public_coordinates(eval_point, k));
    let f = |i: int| eq_weight(point, i).times(public_elems[i]);
    let g = |i: int|
        coordinate_product(public_coordinates(eval_point, k), i).times(public_elems[i]);
    assert forall|i: int| 0 <= i < pow2(k) implies #[trigger] f(i) == g(i) by {
        lemma_eq_weight_is_product(point, i);
    }
    lemma_sum_ext(f, g, pow2(k));
}

/// The transparent polynomial adds to the entry of every public element its weight in the public
/// check, times the coefficient, and leaves the other entries as they are.
pub proof fn lemma_transparent_weights(
    rs_eq_ind: Seq<B128>,
    eval_point: Seq<B128>,
    k: nat,
    batch_coeff: B128,
    i: int,
)
    requires
        eval_point.len() >= 7 + k,
        0 <= i,
    ensures
        batched_transparent_at(
            rs_eq_ind,
            pubcheck_point_of(eval_point, k as int),
            batch_coeff,
            i,
        ) == (if i < pow2(k) {
            rs_eq_ind[i].plus(
                batch_coeff.times(coordinate_product(public_coordinates(eval_point, k), i)),
            )
        } else {
            rs_eq_ind[i]
        }),
{
    let point = pubcheck_point_of(eval_point, k as int);
    assert(point =~= public_coordinates(eval_point, k));
    if i < pow2(k) {
        lemma_eq_weight_is_product(point, i);
        B128::lemma_times(batch_coeff, eq_weight(point, i), batch_coeff);
    }
}

/// The batched relation is true of the committed witness: where the ring switch's claim is the inner
/// product of the witness with its equality indicator, the batched claim is the inner product of the
/// witness with the transparent polynomial.
pub proof fn lemma_batched_relation_holds(
    witness: Seq<B128>,
    rs_eq_ind: Seq<B128>,
    eval_point: Seq<B128>,
    k: nat,
    batch_coeff: B128,
    sumcheck_claim: B128,
)
    requires
        eval_point.len() >= 7 + k,
        pow2(k) <= witness.len() == rs_eq_ind.len(),
        sumcheck_claim == inner(witness, rs_eq_ind),
    ensures
        batched_claim_of(
            sumcheck_claim,
            witness.take(pow2(k) as int),
            eval_point,
            k as int,
            batch_coeff,
        ) == inner(
            witness,
            Seq::new(
                rs_eq_ind.len(),
                |i: int|
                    batched_transparent_at(
                        rs_eq_ind,
                        pubcheck_point_of(eval_point, k as int),
                        batch_coeff,
                        i,
                    ),
            ),
        ),
{
    let point = pubcheck_point_of(eval_point, k as int);
    assert(point.len() == k);
    let n = witness.len();
    let public = witness.take(pow2(k) as int);
    let t = Seq::new(
        n,
        |i: int| batched_transparent_at(rs_eq_ind, point, batch_coeff, i),
    );
    let a = |i: int| witness[i].times(rs_eq_ind[i]);
    let e = |i: int|
        if i < pow2(k) {
            eq_weight(point, i).times(witness[i])
        } else {
            B128::zero_of()
        };
    let b = |i: int| batch_coeff.times(e(i));
    let all = |i: int| witness[i].times(t[i]);
    assert forall|i: int| 0 <= i < n implies #[trigger] all(i) == a(i).plus(b(i)) by {
        if i < pow2(k) {
            let w = eq_weight(point, i);
            lemma_distr(rs_eq_ind[i], w.times(batch_coeff), witness[i]);
            B128::lemma_times(witness[i], w, batch_coeff);
            B128::lemma_times(w, witness[i], batch_coeff);
            B128::lemma_times(w.times(witness[i]), batch_coeff, batch_coeff);
        } else {
            lemma_zero(batch_coeff);
            lemma_zero(a(i));
        }
    }
    lemma_sum_ext(all, |i: int| a(i).plus(b(i)), n);
    lemma_sum_plus(a, b, n);
    lemma_sum_scale(batch_coeff, e, n);
    assert forall|i: int| pow2(k) <= i < n implies #[trigger] e(i) == B128::zero_of() by {}
    lemma_sum_tail(e, pow2(k), n);
    lemma_sum_ext(e, |i: int| eq_weight(point, i).times(public[i]), pow2(k));
}

/// At point `i` of the 64-point domain the MUL claim is the evaluation of bit column `i` of each
/// operand, in the order left, right, low, high.
pub proof fn lemma_intmul_claim_at_domain_point(o: IntMulOutput, i: int)
    requires
        o.wf(),
        0 <= i < 64,
    ensures
        combined_evals(
            o,
            lagrange_of(
                subspace_points(canonical_basis::<B128>(6)),
                BinaryField128bGhash(i as u128),
            ),
        ) == seq![o.a_evals@[i], o.b_evals@[i], o.c_lo_evals@[i], o.c_hi_evals@[i]],
{
    lemma2_to64();
    let xs = subspace_points(canonical_basis::<B128>(6));
    lemma_canonical_points(6, i);
    lemma_canonical_points_differ(6);
    assert(xs[i] == BinaryField128bGhash(i as u128));
    let l = lagrange_of(xs, xs[i]);
    assert forall|evals: Seq<B128>| evals.len() == 64 implies #[trigger] inner(evals, l)
        == evals[i] by {
        let f = |k: int| evals[k].times(l[k]);
        assert forall|k: int| 0 <= k < 64 && k != i implies #[trigger] f(k) == B128::zero_of() by {
            lemma_lagrange_vanishes(xs, k, i);
            lemma_zero(evals[k]);
        }
        lemma_sum_single(f, i, 64);
        lemma_lagrange_one(xs, i);
        lemma_zero(evals[i]);
    }
    assert(combined_evals(o, l) =~= seq![
        o.a_evals@[i],
        o.b_evals@[i],
        o.c_lo_evals@[i],
        o.c_hi_evals@[i],
    ]);
}

} // verus!
