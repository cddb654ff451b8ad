//! A batched polynomial over tables of Keccak states, and its sumcheck prover.
//!
//! The polynomial is a sum of round polynomials and of mixed outputs, each of one table and with
//! a coefficient. Its claim is its multilinear extension at a point; every prover round binds the
//! highest variable.
use super::blocks::{at, bit_block, line_block, output_value, round_inf, round_value};
use super::kernels::{
    single_fused_block_pair_eval, single_fused_word_pair_eval, weighted_output_block_eval_at_hi,
    weighted_output_eval_at_hi,
};
use crate::field::BinaryField;
use crate::keccak_prove::trace::State;
use crate::math::sums::{lemma_zero, sum};
use crate::verify::shift_laws::{bit64, line};
use vstd::prelude::*;

verus! {

/// States by instance: words at first, blocks of field elements once a variable is bound.
pub enum Table<F> {
    /// States of words.
    Words(Vec<State>),
    /// Blocks of 1600 field elements.
    Blocks(Vec<Vec<F>>),
}

impl<F: BinaryField> Table<F> {
    /// The number of instances.
    pub open spec fn size(self) -> nat {
        match self {
            Table::Words(w) => w@.len(),
            Table::Blocks(b) => b@.len(),
        }
    }

    /// The block of instance `i`.
    pub open spec fn block(self, i: int) -> Seq<F> {
        match self {
            Table::Words(w) => bit_block::<F>(w@[i]@),
            Table::Blocks(b) => b@[i]@,
        }
    }

    /// Every block has its entries.
    pub open spec fn wf(self) -> bool {
        match self {
            Table::Words(w) => true,
            Table::Blocks(b) => forall|i: int|
                0 <= i < b@.len() ==> (#[trigger] b@[i])@.len() == 1600,
        }
    }

    /// The round polynomial on instance `hi`, and its quadratic coefficient along the line from
    /// instance `lo`.
    pub fn round_pair_eval(
        &self,
        lo: usize,
        hi: usize,
        lane_weights: &[F; 25],
        round: usize,
        bit_weights: &[F; 64],
    ) -> (r: (F, F))
        requires
            self.wf(),
            lo < self.size(),
            hi < self.size(),
            round < 24,
        ensures
            r.0 == round_value(
                self.block(hi as int),
                lane_weights@,
                round as int,
                bit_weights@,
            ),
            r.1 == round_inf(
                self.block(lo as int),
                self.block(hi as int),
                lane_weights@,
                bit_weights@,
            ),
    {
        match self {
            Table::Words(w) => single_fused_word_pair_eval(
                &w[lo],
                &w[hi],
                lane_weights,
                round,
                bit_weights,
            ),
            Table::Blocks(b) => single_fused_block_pair_eval(
                &b[lo],
                &b[hi],
                lane_weights,
                round,
                bit_weights,
            ),
        }
    }

    /// The mixed output on instance `hi`.
    pub fn output_eval(&self, hi: usize, lane_weights: &[F; 25], bit_weights: &[F; 64]) -> (r: F)
        requires
            self.wf(),
            hi < self.size(),
        ensures
            r == output_value(self.block(hi as int), lane_weights@, bit_weights@),
    {
        match self {
            Table::Words(w) => weighted_output_eval_at_hi(&w[hi], lane_weights, bit_weights),
            Table::Blocks(b) => weighted_output_block_eval_at_hi(
                &b[hi],
                lane_weights,
                bit_weights,
            ),
        }
    }

    /// Whether `post` binds the highest variable of `self` to `t`.
    pub open spec fn folds_to(self, post: Table<F>, t: F) -> bool {
        &&& post.wf()
        &&& post.size() == self.size() / 2
        &&& forall|i: int|
            0 <= i < post.size() ==> #[trigger] post.block(i) == line_block(
                self.block(i),
                self.block(post.size() as int + i),
                t,
            )
    }

    /// Binds the highest variable to `challenge`.
    pub fn fold(&self, challenge: F) -> (post: Table<F>)
        requires
            self.wf(),
            self.size() % 2 == 0,
        ensures
            self.folds_to(post, challenge),
    {
        match self {
            Table::Words(w) => {
                let split: usize = w.len() / 2;
                let blocks = fold_words(w, split, challenge);
                let post = Table::Blocks(blocks);
                proof {
                    assert forall|i: int| 0 <= i < split implies #[trigger] post.block(i)
                        == line_block(self.block(i), self.block(split + i), challenge) by {}
                }
                post
            },
            Table::Blocks(b) => {
                let n: usize = b.len();
                let split: usize = n / 2;
                let mut blocks: Vec<Vec<F>> = Vec::new();
                for i in 0..split
                    invariant
                        forall|k: int| 0 <= k < b@.len() ==> (#[trigger] b@[k])@.len() == 1600,
                        n == b@.len(),
                        split == n / 2,
                        blocks@.len() == i,
                        forall|k: int|
                            0 <= k < i ==> (#[trigger] blocks@[k])@ == line_block(
                                b@[k]@,
                                b@[split + k]@,
                                challenge,
                            ),
                {
                    assert(b@[i as int]@.len() == 1600 && b@[split + i]@.len() == 1600);
                    blocks.push(fold_block(&b[i], &b[split + i], challenge));
                }
                let post = Table::Blocks(blocks);
                proof {
                    assert forall|i: int| 0 <= i < split implies #[trigger] post.block(i)
                        == line_block(self.block(i), self.block(split + i), challenge) by {}
                }
                post
            },
        }
    }
}

/// The point at parameter `t` of the line between two blocks.
fn fold_block<F: BinaryField>(lo: &Vec<F>, hi: &Vec<F>, t: F) -> (r: Vec<F>)
    requires
        lo@.len() == 1600,
        hi@.len() == 1600,
    ensures
        r@ == line_block(lo@, hi@, t),
{
    let u = F::one().add(t);
    let mut r: Vec<F> = Vec::new();
    for i in 0..1600
        invariant
            lo@.len() == 1600,
            hi@.len() == 1600,
            u == F::one_of().plus(t),
            r@.len() == i,
            forall|k: int| 0 <= k < i ==> #[trigger] r@[k] == line_block(lo@, hi@, t)[k],
    {
        r.push(u.mul(lo[i]).add(t.mul(hi[i])));
    }
    assert(r@ =~= line_block(lo@, hi@, t));
    r
}

/// Binds the highest variable of a table of words: each bit pair picks one of the values
/// `0`, `1 + t`, `t` and `1`.
fn fold_words<F: BinaryField>(w: &Vec<State>, split: usize, t: F) -> (r: Vec<Vec<F>>)
    requires
        2 * split <= w@.len(),
    ensures
        r@.len() == split,
        forall|i: int|
            0 <= i < split ==> (#[trigger] r@[i])@ == line_block(
                bit_block::<F>(w@[i]@),
                bit_block::<F>(w@[split + i]@),
                t,
            ),
{
    let lookup: [F; 4] = [F::zero(), F::one().add(t), t, F::one()];
    let mut r: Vec<Vec<F>> = Vec::new();
    let n: usize = w.len();
    for i in 0..split
        invariant
            n == w@.len(),
            2 * split <= n,
            lookup@ =~= seq![F::zero_of(), F::one_of().plus(t), t, F::one_of()],
            r@.len() == i,
            forall|k: int|
                0 <= k < i ==> (#[trigger] r@[k])@ == line_block(
                    bit_block::<F>(w@[k]@),
                    bit_block::<F>(w@[split + k]@),
                    t,
                ),
    {
        let lo = &w[i];
        let hi = &w[split + i];
        let ghost want = line_block(bit_block::<F>(lo@), bit_block::<F>(hi@), t);
        let mut block: Vec<F> = Vec::new();
        for j in 0..1600
            invariant
                lookup@ =~= seq![F::zero_of(), F::one_of().plus(t), t, F::one_of()],
                want == line_block(bit_block::<F>(lo@), bit_block::<F>(hi@), t),
                block@.len() == j,
                forall|k: int| 0 <= k < j ==> #[trigger] block@[k] == want[k],
        {
            let lane: usize = j / 64;
            let bit: u64 = (j % 64) as u64;
            let lo_set: bool = (lo[lane] >> bit) & 1 == 1;
            let hi_set: bool = (hi[lane] >> bit) & 1 == 1;
            let at: usize = (if lo_set {
                1usize
            } else {
                0
            }) + (if hi_set {
                2usize
            } else {
                0
            });
            proof {
                let (one, zero) = (F::one_of(), F::zero_of());
                let u = one.plus(t);
                lemma_zero(u);
                lemma_zero(t);
                lemma_zero(zero);
                lemma_zero(one);
                F::lemma_plus(one, t, t);
                F::lemma_plus(t, t, t);
                assert(lo_set == bit64(lo@[lane as int], bit as int));
                assert(hi_set == bit64(hi@[lane as int], bit as int));
                assert(lookup@[at as int] == want[j as int]);
            }
            block.push(lookup[at]);
        }
        assert(block@ =~= want);
        r.push(block);
    }
    r
}

/// A round polynomial of one table, with a coefficient.
pub struct RoundTerm<F> {
    /// The table.
    pub table: usize,
    /// The weights of the lanes.
    pub lane_weights: [F; 25],
    /// The Keccak round.
    pub round: usize,
    /// The coefficient.
    pub coeff: F,
}

/// A mixed output of one table, with a coefficient.
pub struct OutputTerm<F> {
    /// The table.
    pub table: usize,
    /// The weights of the lanes.
    pub lane_weights: [F; 25],
    /// The coefficient.
    pub coeff: F,
}

/// A sum of round polynomials and mixed outputs over tables of the same size.
pub struct BatchedPolynomial<F> {
    /// The tables.
    pub tables: Vec<Table<F>>,
    /// The round polynomials.
    pub round_terms: Vec<RoundTerm<F>>,
    /// The mixed outputs.
    pub output_terms: Vec<OutputTerm<F>>,
    /// The weights of the bits.
    pub bit_weights: [F; 64],
}

/// The value of a batched polynomial whose tables hold the given blocks.
pub open spec fn batched_value<F: BinaryField>(
    blocks: spec_fn(int) -> Seq<F>,
    round_terms: Seq<RoundTerm<F>>,
    output_terms: Seq<OutputTerm<F>>,
    bw: Seq<F>,
) -> F {
    sum(
        |t: int|
            round_terms[t].coeff.times(
                round_value(
                    blocks(round_terms[t].table as int),
                    round_terms[t].lane_weights@,
                    round_terms[t].round as int,
                    bw,
                ),
            ),
        round_terms.len(),
    ).plus(
        sum(
            |u: int|
                output_terms[u].coeff.times(
                    output_value(
                        blocks(output_terms[u].table as int),
                        output_terms[u].lane_weights@,
                        bw,
                    ),
                ),
            output_terms.len(),
        ),
    )
}

/// The quadratic coefficient of a batched polynomial along the lines between the given blocks.
pub open spec fn batched_inf<F: BinaryField>(
    lo: spec_fn(int) -> Seq<F>,
    hi: spec_fn(int) -> Seq<F>,
    round_terms: Seq<RoundTerm<F>>,
    bw: Seq<F>,
) -> F {
    sum(
        |t: int|
            round_terms[t].coeff.times(
                round_inf(
                    lo(round_terms[t].table as int),
                    hi(round_terms[t].table as int),
                    round_terms[t].lane_weights@,
                    bw,
                ),
            ),
        round_terms.len(),
    )
}

impl<F: BinaryField> BatchedPolynomial<F> {
    /// The blocks of instance `i`, by table.
    pub open spec fn blocks_at(self, i: int) -> spec_fn(int) -> Seq<F> {
        |t: int| self.tables@[t].block(i)
    }

    /// The value on instance `i`.
    pub open spec fn value(self, i: int) -> F {
        batched_value(
            self.blocks_at(i),
            self.round_terms@,
            self.output_terms@,
            self.bit_weights@,
        )
    }

    /// The quadratic coefficient along the line from instance `i` to instance `j`.
    pub open spec fn inf(self, i: int, j: int) -> F {
        batched_inf(self.blocks_at(i), self.blocks_at(j), self.round_terms@, self.bit_weights@)
    }

    /// The tables have `n` instances, and the terms name tables and rounds that exist.
    pub open spec fn wf(self, n: nat) -> bool {
        &&& forall|t: int|
            0 <= t < self.tables@.len() ==> (#[trigger] self.tables@[t]).wf()
                && self.tables@[t].size() == n
        &&& forall|t: int|
            0 <= t < self.round_terms@.len() ==> (#[trigger] self.round_terms@[t]).table
                < self.tables@.len() && self.round_terms@[t].round < 24
        &&& forall|u: int|
            0 <= u < self.output_terms@.len() ==> (#[trigger] self.output_terms@[u]).table
                < self.tables@.len()
    }

    /// The value on instance `hi`, and the quadratic coefficient along the line from instance
    /// `lo`.
    pub fn pair_eval(&self, Ghost(n): Ghost<nat>, lo: usize, hi: usize) -> (r: (F, F))
        requires
            self.wf(n),
            lo < n,
            hi < n,
        ensures
            r.0 == self.value(hi as int),
            r.1 == self.inf(lo as int, hi as int),
    {
        let mut total_1 = F::zero();
        let mut total_inf = F::zero();
        let ghost bw = self.bit_weights@;
        let ghost (bl, bh) = (self.blocks_at(lo as int), self.blocks_at(hi as int));
        let ghost terms = self.round_terms@;
        let ghost f = |t: int|
            terms[t].coeff.times(
                round_value(
                    bh(terms[t].table as int),
                    terms[t].lane_weights@,
                    terms[t].round as int,
                    bw,
                ),
            );
        let ghost g = |t: int|
            terms[t].coeff.times(
                round_inf(
                    bl(terms[t].table as int),
                    bh(terms[t].table as int),
                    terms[t].lane_weights@,
                    bw,
                ),
            );
        let n_round: usize = self.round_terms.len();
        for t in 0..n_round
            invariant
                self.wf(n),
                lo < n,
                hi < n,
                n_round == self.round_terms@.len(),
                terms == self.round_terms@,
                bw == self.bit_weights@,
                bl == self.blocks_at(lo as int),
                bh == self.blocks_at(hi as int),
                f == (|t: int|
                    terms[t].coeff.times(
                        round_value(
                            bh(terms[t].table as int),
                            terms[t].lane_weights@,
                            terms[t].round as int,
                            bw,
                        ),
                    )),
                g == (|t: int|
                    terms[t].coeff.times(
                        round_inf(
                            bl(terms[t].table as int),
                            bh(terms[t].table as int),
                            terms[t].lane_weights@,
                            bw,
                        ),
                    )),
                total_1 == sum(f, t as nat),
                total_inf == sum(g, t as nat),
        {
            let term = &self.round_terms[t];
            assert(terms[t as int].table < self.tables@.len());
            let table = &self.tables[term.table];
            assert(self.tables@[term.table as int].wf());
            let (c1, ci) = table.round_pair_eval(
                lo,
                hi,
                &term.lane_weights,
                term.round,
                &self.bit_weights,
            );
            total_1 = total_1.add(term.coeff.mul(c1));
            total_inf = total_inf.add(term.coeff.mul(ci));
        }
        let ghost outs = self.output_terms@;
        let ghost h = |u: int|
            outs[u].coeff.times(
                output_value(bh(outs[u].table as int), outs[u].lane_weights@, bw),
            );
        let mut total_out = F::zero();
        let n_out: usize = self.output_terms.len();
        for u in 0..n_out
            invariant
                self.wf(n),
                hi < n,
                n_out == self.output_terms@.len(),
                outs == self.output_terms@,
                bw == self.bit_weights@,
                bh == self.blocks_at(hi as int),
                h == (|u: int|
                    outs[u].coeff.times(
                        output_value(bh(outs[u].table as int), outs[u].lane_weights@, bw),
                    )),
                total_out == sum(h, u as nat),
        {
            let term = &self.output_terms[u];
            assert(outs[u as int].table < self.tables@.len());
            let table = &self.tables[term.table];
            assert(self.tables@[term.table as int].wf());
            let o = table.output_eval(hi, &term.lane_weights, &self.bit_weights);
            total_out = total_out.add(term.coeff.mul(o));
        }
        (total_1.add(total_out), total_inf)
    }
}

} // verus!
