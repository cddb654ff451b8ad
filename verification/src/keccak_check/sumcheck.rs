//! The sumcheck prover of a batched polynomial.
use super::batch::{BatchedPolynomial, Table};
use super::blocks::{at, bit_block};
use crate::field::BinaryField;
use crate::keccak_prove::shift_evals::{fold_word, fold_word_with_lagrange};
use crate::math::multilinear::{eq_ind_partial_eval_scalars, eq_weight, eq_weights};
use crate::math::sums::{lemma_sum_ext, lemma_zero, sum};
use crate::parallel::par_map_indices;
use crate::verify::shift_laws::line;
use vstd::arithmetic::power2::{lemma2_to64, lemma_pow2_unfold, pow2};
use vstd::prelude::*;

verus! {

/// Why a prover step is refused.
#[derive(Debug, Clone, Copy, PartialEq, Eq, Structural)]
pub enum SumcheckError {
    /// A table has not one state per vertex of the hypercube.
    MultilinearSizeMismatch,
    /// The last round polynomial awaits its challenge.
    ExpectedFold,
    /// The next round polynomial is due.
    ExpectedExecute,
}

/// A quadratic round polynomial.
#[derive(Debug, Clone, Copy, PartialEq, Eq)]
pub struct RoundCoeffs<F> {
    /// The constant coefficient.
    pub c0: F,
    /// The linear coefficient.
    pub c1: F,
    /// The quadratic coefficient.
    pub c2: F,
}

/// The value of a quadratic polynomial.
pub open spec fn coeffs_at<F: BinaryField>(c: RoundCoeffs<F>, t: F) -> F {
    c.c0.plus(t.times(c.c1.plus(t.times(c.c2))))
}

/// The round polynomial with leading coefficient `y_inf` and value `y_1` at one that interpolates
/// the claim: `(1 + alpha) p(0) + alpha p(1) = claim`.
pub open spec fn interpolated<F: BinaryField>(claim: F, alpha: F, y_1: F, y_inf: F) -> RoundCoeffs<
    F,
> {
    let y_0 = claim.plus(alpha.times(y_1)).times(F::one_of().plus(alpha).inverted());
    RoundCoeffs { c0: y_0, c1: y_1.plus(y_0).plus(y_inf), c2: y_inf }
}

impl<F: BinaryField> RoundCoeffs<F> {
    /// Whether the polynomial agrees with a claim at the coordinate `alpha`: its values at zero and
    /// one, weighted by `1 + alpha` and `alpha`, add up to the claim.
    pub fn agrees_with(&self, alpha: F, claim: F) -> (r: bool)
        ensures
            r == (line(
                coeffs_at(*self, F::zero_of()),
                coeffs_at(*self, F::one_of()),
                alpha,
            ) == claim),
    {
        let at_zero = self.evaluate(F::zero());
        let at_one = self.evaluate(F::one());
        F::one().add(alpha).mul(at_zero).add(alpha.mul(at_one)).equals(claim)
    }

    /// The value at `t`.
    pub fn evaluate(&self, t: F) -> (r: F)
        ensures
            r == coeffs_at(*self, t),
    {
        self.c0.add(t.mul(self.c1.add(t.mul(self.c2))))
    }
}

/// Interpolates a round polynomial from the claim, its value at one and its leading coefficient.
pub fn interpolate_round_coeffs<F: BinaryField>(last_eval: F, alpha: F, y_1: F, y_inf: F) -> (r:
    RoundCoeffs<F>)
    ensures
        r == interpolated(last_eval, alpha, y_1, y_inf),
{
    let y_0 = last_eval.add(alpha.mul(y_1)).mul(F::one().add(alpha).invert_or_zero());
    RoundCoeffs { c0: y_0, c1: y_1.add(y_0).add(y_inf), c2: y_inf }
}

/// What the prover last handed out or took in.
pub enum RoundCoeffsOrEval<F> {
    /// A round polynomial that awaits its challenge.
    Coeffs(RoundCoeffs<F>),
    /// The claim that the next round polynomial is for.
    Eval(F),
}

/// The prover: a polynomial, the coordinates of its claim that are not bound yet, and the claim.
pub struct SumProver<F> {
    /// The polynomial.
    pub polynomial: BatchedPolynomial<F>,
    /// The unbound coordinates.
    pub point: Vec<F>,
    /// The claim or the last round polynomial.
    pub last: RoundCoeffsOrEval<F>,
}

/// The multilinear extension at `point` of the values of a polynomial.
pub open spec fn claim_of<F: BinaryField>(poly: BatchedPolynomial<F>, point: Seq<F>) -> F {
    sum(|i: int| eq_weight(point, i).times(poly.value(i)), pow2(point.len()))
}

/// The round polynomial's value at one.
pub open spec fn round_at_one<F: BinaryField>(poly: BatchedPolynomial<F>, point: Seq<F>) -> F {
    let low = point.drop_last();
    let half = pow2(low.len());
    sum(|i: int| eq_weight(low, i).times(poly.value(half + i)), half)
}

/// The round polynomial's value at zero.
pub open spec fn round_at_zero<F: BinaryField>(poly: BatchedPolynomial<F>, point: Seq<F>) -> F {
    let low = point.drop_last();
    sum(|i: int| eq_weight(low, i).times(poly.value(i)), pow2(low.len()))
}

/// The round polynomial's quadratic coefficient.
pub open spec fn round_at_inf<F: BinaryField>(poly: BatchedPolynomial<F>, point: Seq<F>) -> F {
    let low = point.drop_last();
    let half = pow2(low.len());
    sum(|i: int| eq_weight(low, i).times(poly.inf(i, half + i)), half)
}

/// Whether `post` is the polynomial `pre` with the highest variable bound to `t`.
pub open spec fn polynomial_folds<F: BinaryField>(
    pre: BatchedPolynomial<F>,
    post: BatchedPolynomial<F>,
    t: F,
) -> bool {
    &&& post.round_terms == pre.round_terms
    &&& post.output_terms == pre.output_terms
    &&& post.bit_weights == pre.bit_weights
    &&& post.tables@.len() == pre.tables@.len()
    &&& forall|k: int|
        0 <= k < pre.tables@.len() ==> pre.tables@[k].folds_to(#[trigger] post.tables@[k], t)
}

/// The values of two pair evaluations.
pub type Pair<F> = (F, F);

/// Whether a pair is the evaluation of instances `i` and `half + i`.
pub open spec fn is_pair_of<F: BinaryField>(
    poly: BatchedPolynomial<F>,
    half: usize,
    i: usize,
    pair: Pair<F>,
) -> bool {
    pair.0 == poly.value(half + i) && pair.1 == poly.inf(i as int, half + i)
}

impl<F: BinaryField> SumProver<F> {
    /// The tables have one state per vertex that is left.
    pub open spec fn wf(self) -> bool {
        self.polynomial.wf(pow2(self.point@.len()))
    }

    /// Creates a prover for the claim `eval` at `point`, where every table has `2^n` states for
    /// the `n` coordinates of the point.
    pub fn new(polynomial: BatchedPolynomial<F>, point: Vec<F>, eval: F) -> (r: Self)
        requires
            polynomial.wf(pow2(point@.len())),
        ensures
            r.wf(),
            r.polynomial == polynomial,
            r.point == point,
            r.last == RoundCoeffsOrEval::Eval(eval),
    {
        SumProver { polynomial, point, last: RoundCoeffsOrEval::Eval(eval) }
    }

    /// The number of variables that are not bound yet.
    pub fn n_vars(&self) -> (r: usize)
        ensures
            r == self.point@.len(),
    {
        self.point.len()
    }

    /// Computes the next round polynomial.
    pub fn execute(&mut self) -> (r: Result<RoundCoeffs<F>, SumcheckError>)
        where F: Send + Sync
        requires
            old(self).wf(),
            old(self).point@.len() > 0,
            pow2(old(self).point@.len()) <= usize::MAX,
        ensures
            match old(self).last {
                RoundCoeffsOrEval::Coeffs(_) => r == Err::<RoundCoeffs<F>, SumcheckError>(
                    SumcheckError::ExpectedFold,
                ) && *final(self) == *old(self),
                RoundCoeffsOrEval::Eval(claim) => {
                    let coeffs = interpolated(
                        claim,
                        old(self).point@.last(),
                        round_at_one(old(self).polynomial, old(self).point@),
                        round_at_inf(old(self).polynomial, old(self).point@),
                    );
                    &&& r == Ok::<RoundCoeffs<F>, SumcheckError>(coeffs)
                    &&& final(self).last == RoundCoeffsOrEval::Coeffs(coeffs)
                    &&& final(self).polynomial == old(self).polynomial
                    &&& final(self).point == old(self).point
                },
            },
    {
        let last_eval = match &self.last {
            RoundCoeffsOrEval::Eval(eval) => *eval,
            RoundCoeffsOrEval::Coeffs(_) => {
                return Err(SumcheckError::ExpectedFold);
            },
        };
        let n_vars: usize = self.point.len();
        let ghost point = self.point@;
        let ghost low = point.drop_last();
        let (low_point, top) = self.point.as_slice().split_at(n_vars - 1);
        let alpha = top[0];
        proof {
            assert(low_point@ =~= low);
            lemma_pow2_unfold(n_vars as nat);
        }
        let eq = eq_ind_partial_eval_scalars(low_point);
        let split: usize = eq.len();
        let poly = &self.polynomial;
        let pair_at = |i: usize| -> (pair: Pair<F>)
            requires
                split > i,
            ensures
                is_pair_of(*poly, split, i, pair),
        {
            poly.pair_eval(Ghost(pow2(n_vars as nat)), i, split + i)
        };
        let pairs = par_map_indices(split, pair_at);
        let mut y_1 = F::zero();
        let mut y_inf = F::zero();
        let ghost f1 = |i: int| eq_weight(low, i).times(poly.value(split + i));
        let ghost fi = |i: int| eq_weight(low, i).times(poly.inf(i, split + i));
        for i in 0..split
            invariant
                eq@ == eq_weights(low),
                eq@.len() == split,
                pairs@.len() == split,
                forall|k: int|
                    0 <= k < split ==> is_pair_of(*poly, split, k as usize, #[trigger] pairs@[k]),
                f1 == (|i: int| eq_weight(low, i).times(poly.value(split + i))),
                fi == (|i: int| eq_weight(low, i).times(poly.inf(i, split + i))),
                y_1 == sum(f1, i as nat),
                y_inf == sum(fi, i as nat),
        {
            let pair = pairs[i];
            assert(is_pair_of(*poly, split, i, pairs@[i as int]));
            y_1 = y_1.add(eq[i].mul(pair.0));
            y_inf = y_inf.add(eq[i].mul(pair.1));
        }
        let coeffs = interpolate_round_coeffs(last_eval, alpha, y_1, y_inf);
        proof {
            assert(pow2(low.len()) == split);
            assert(round_at_one(*poly, point) == sum(f1, split as nat)) by {
                lemma_sum_ext(
                    |i: int| eq_weight(low, i).times(poly.value(pow2(low.len()) + i)),
                    f1,
                    split as nat,
                );
            }
            assert(round_at_inf(*poly, point) == sum(fi, split as nat)) by {
                lemma_sum_ext(
                    |i: int| eq_weight(low, i).times(poly.inf(i, pow2(low.len()) + i)),
                    fi,
                    split as nat,
                );
            }
        }
        self.last = RoundCoeffsOrEval::Coeffs(coeffs);
        Ok(coeffs)
    }

    /// Binds the highest variable to the challenge of the last round polynomial.
    pub fn fold(&mut self, challenge: F) -> (r: Result<(), SumcheckError>)
        requires
            old(self).wf(),
            old(self).point@.len() > 0,
        ensures
            final(self).wf(),
            match old(self).last {
                RoundCoeffsOrEval::Eval(_) => r == Err::<(), SumcheckError>(
                    SumcheckError::ExpectedExecute,
                ) && *final(self) == *old(self),
                RoundCoeffsOrEval::Coeffs(coeffs) => {
                    &&& r == Ok::<(), SumcheckError>(())
                    &&& final(self).last == RoundCoeffsOrEval::Eval(coeffs_at(coeffs, challenge))
                    &&& final(self).point@ == old(self).point@.drop_last()
                    &&& polynomial_folds(old(self).polynomial, final(self).polynomial, challenge)
                },
            },
    {
        let next_eval = match &self.last {
            RoundCoeffsOrEval::Coeffs(coeffs) => coeffs.evaluate(challenge),
            RoundCoeffsOrEval::Eval(_) => {
                return Err(SumcheckError::ExpectedExecute);
            },
        };
        let ghost n = pow2(self.point@.len());
        proof {
            lemma_pow2_unfold(self.point@.len());
        }
        let n_tables: usize = self.polynomial.tables.len();
        let mut tables: Vec<Table<F>> = Vec::new();
        for k in 0..n_tables
            invariant
                *self == *old(self),
                n_tables == self.polynomial.tables@.len(),
                n == pow2(self.point@.len()),
                n % 2 == 0,
                self.polynomial.wf(n),
                tables@.len() == k,
                forall|j: int|
                    0 <= j < k ==> self.polynomial.tables@[j].folds_to(
                        #[trigger] tables@[j],
                        challenge,
                    ),
        {
            let table = &self.polynomial.tables[k];
            assert(self.polynomial.tables@[k as int].wf());
            tables.push(table.fold(challenge));
        }
        self.polynomial.tables = tables;
        let _bound = self.point.pop();
        self.last = RoundCoeffsOrEval::Eval(next_eval);
        proof {
            let pre = old(self).polynomial;
            assert forall|t: int| 0 <= t < self.polynomial.tables@.len() implies (
            #[trigger] self.polynomial.tables@[t]).wf() && self.polynomial.tables@[t].size()
                == pow2(self.point@.len()) by {
                assert(pre.tables@[t].folds_to(self.polynomial.tables@[t], challenge));
                assert(pre.tables@[t].size() == n);
            }
            assert forall|t: int| 0 <= t < self.polynomial.round_terms@.len() implies (
            #[trigger] self.polynomial.round_terms@[t]).table < self.polynomial.tables@.len()
                && self.polynomial.round_terms@[t].round < 24 by {
                assert(pre.round_terms@[t].table < pre.tables@.len());
            }
            assert forall|u: int| 0 <= u < self.polynomial.output_terms@.len() implies (
            #[trigger] self.polynomial.output_terms@[u]).table < self.polynomial.tables@.len() by {
                assert(pre.output_terms@[u].table < pre.tables@.len());
            }
        }
        Ok(())
    }

    /// The folded lane evaluations of the first `n_tables` tables, once every variable is bound:
    /// 25 per table.
    pub fn finish(&self, n_tables: usize) -> (r: Result<Vec<F>, SumcheckError>)
        requires
            self.wf(),
            n_tables <= self.polynomial.tables@.len(),
            25 * n_tables <= usize::MAX,
        ensures
            self.point@.len() > 0 ==> r == Err::<Vec<F>, SumcheckError>(
                match self.last {
                    RoundCoeffsOrEval::Coeffs(_) => SumcheckError::ExpectedFold,
                    RoundCoeffsOrEval::Eval(_) => SumcheckError::ExpectedExecute,
                },
            ),
            self.point@.len() == 0 ==> r is Ok && r->Ok_0@ == Seq::new(
                (25 * n_tables) as nat,
                |i: int|
                    lane_fold(
                        self.polynomial.tables@[i / 25].block(0),
                        i % 25,
                        self.polynomial.bit_weights@,
                    ),
            ),
    {
        if self.point.len() > 0 {
            return match &self.last {
                RoundCoeffsOrEval::Coeffs(_) => Err(SumcheckError::ExpectedFold),
                RoundCoeffsOrEval::Eval(_) => Err(SumcheckError::ExpectedExecute),
            };
        }
        proof {
            lemma2_to64();
        }
        let mut evals: Vec<F> = Vec::new();
        for i in 0..25 * n_tables
            invariant
                self.wf(),
                self.point@.len() == 0,
                pow2(0) == 1,
                n_tables <= self.polynomial.tables@.len(),
                25 * n_tables <= usize::MAX,
                evals@.len() == i,
                forall|k: int|
                    0 <= k < i ==> #[trigger] evals@[k] == lane_fold(
                        self.polynomial.tables@[k / 25].block(0),
                        k % 25,
                        self.polynomial.bit_weights@,
                    ),
        {
            let table = &self.polynomial.tables[i / 25];
            assert(self.polynomial.tables@[i as int / 25].wf());
            assert(self.polynomial.tables@[i as int / 25].size() == 1);
            evals.push(lane_eval(table, i % 25, &self.polynomial.bit_weights));
        }
        assert(evals@ =~= Seq::new(
            (25 * n_tables) as nat,
            |i: int|
                lane_fold(
                    self.polynomial.tables@[i / 25].block(0),
                    i % 25,
                    self.polynomial.bit_weights@,
                ),
        ));
        Ok(evals)
    }
}

/// The entries of a lane, weighted by bit.
pub open spec fn lane_fold<F: BinaryField>(b: Seq<F>, lane: int, bw: Seq<F>) -> F {
    sum(|bit: int| bw[bit].times(at(b, lane, bit)), 64)
}

/// The folded evaluation of a lane of the first state of a table.
fn lane_eval<F: BinaryField>(table: &Table<F>, lane: usize, bit_weights: &[F; 64]) -> (r: F)
    requires
        table.wf(),
        table.size() > 0,
        lane < 25,
    ensures
        r == lane_fold(table.block(0), lane as int, bit_weights@),
{
    match table {
        Table::Words(w) => {
            let word: u64 = w[0][lane];
            proof {
                lemma_lane_fold_of_words::<F>(w@[0]@, lane as int, bit_weights@);
            }
            fold_word_with_lagrange(word, bit_weights.as_slice())
        },
        Table::Blocks(b) => {
            let block = &b[0];
            assert(b@[0]@.len() == 1600);
            lane_fold_of(block, lane, bit_weights)
        },
    }
}

/// The entries of a lane, weighted by bit.
pub fn lane_fold_of<F: BinaryField>(block: &Vec<F>, lane: usize, bit_weights: &[F; 64]) -> (r: F)
    requires
        block@.len() == 1600,
        lane < 25,
    ensures
        r == lane_fold(block@, lane as int, bit_weights@),
{
    let mut acc = F::zero();
    let ghost f = |bit: int| bit_weights@[bit].times(at(block@, lane as int, bit));
    for bit in 0..64
        invariant
            block@.len() == 1600,
            lane < 25,
            f == (|bit: int| bit_weights@[bit].times(at(block@, lane as int, bit))),
            acc == sum(f, bit as nat),
    {
        acc = acc.add(bit_weights[bit].mul(block[64 * lane + bit]));
    }
    acc
}

/// The lane fold of the bits of a state is the fold of the word.
pub proof fn lemma_lane_fold_of_words<F: BinaryField>(s: Seq<u64>, lane: int, bw: Seq<F>)
    requires
        0 <= lane < 25,
        bw.len() == 64,
    ensures
        lane_fold(bit_block::<F>(s), lane, bw) == fold_word(s[lane], bw),
{
    let b = bit_block::<F>(s);
    let f = |bit: int| bw[bit].times(at(b, lane, bit));
    let g = |bit: int|
        crate::math::sums::keep_if(crate::verify::shift_laws::bit64(s[lane], bit), bw[bit]);
    assert forall|bit: int| 0 <= bit < 64 implies #[trigger] f(bit) == g(bit) by {
        let i = 64 * lane + bit;
        assert(i / 64 == lane && i % 64 == bit);
        lemma_zero(bw[bit]);
    }
    lemma_sum_ext(f, g, 64);
}

} // verus!
