//! Lookup tables that extend the 64 bits of a lane from one domain to another, and the chi
//! residuals on the extended domain.
use super::constants::{N_LANES, ROUND_CONSTANTS};
use super::shift_evals::{fold_word, lemma_fold_xor};
use super::trace::{iota_word, right_of, State};
use crate::field::BinaryField;
use crate::math::lagrange::{
    lagrange_evals_with_weights, lagrange_of, lagrange_weights, weight_of,
};
use crate::math::subspace::{subspace_point, subspace_points, BinarySubspace};
use crate::math::sums::{
    keep_if, lemma_sum_blocks, lemma_sum_ext, lemma_sum_single, lemma_sum_zero, lemma_zero, sum,
};
use crate::verify::shift_laws::bit64;
use vstd::arithmetic::power2::{lemma2_to64, pow2};
use vstd::prelude::*;

verus! {

/// Number of variables that address a bit of a lane.
pub const LOG_LANE_BITS: usize = 6;

/// Number of groups of 16 evaluations that hold one 64-point lane evaluation.
pub const PACKED_EVALS: usize = 4;

/// For each lane, the lanes of its chi operands: one to the right, two to the right, itself.
pub const CHI_OPERAND_LANES: [(usize, usize, usize); 25] = [
    (1, 2, 0), (2, 3, 1), (3, 4, 2), (4, 0, 3), (0, 1, 4),
    (6, 7, 5), (7, 8, 6), (8, 9, 7), (9, 5, 8), (5, 6, 9),
    (11, 12, 10), (12, 13, 11), (13, 14, 12), (14, 10, 13), (10, 11, 14),
    (16, 17, 15), (17, 18, 16), (18, 19, 17), (19, 15, 18), (15, 16, 19),
    (21, 22, 20), (22, 23, 21), (23, 24, 22), (24, 20, 23), (20, 21, 24),
];

/// The table lists the row neighbours of every lane.
pub proof fn lemma_chi_operand_lanes(i: int)
    requires
        0 <= i < 25,
    ensures
        CHI_OPERAND_LANES[i].0 == right_of(i, 1),
        CHI_OPERAND_LANES[i].1 == right_of(i, 2),
        CHI_OPERAND_LANES[i].2 == i,
{
}

/// A byte-chunked lookup for the extension of 64 one-bit lane coefficients: for each byte
/// position and byte value, the contribution to each of the 64 output points.
#[derive(Clone)]
pub struct NttLookup<F> {
    /// The contributions, by byte position, byte value and output point.
    pub table: Vec<F>,
}

/// The position of a contribution.
pub open spec fn entry(byte_idx: int, byte_value: int, point: int) -> int {
    (256 * byte_idx + byte_value) * 64 + point
}

/// Whether bit `t` of a byte is set.
pub open spec fn byte_bit(value: int, t: int) -> bool {
    bit64(value as u64, t)
}

/// The position of the one-hot byte for bit `i` of a lane.
pub open spec fn one_hot(i: int) -> int {
    (1u64 << ((i % 8) as u64)) as int
}

impl<F: BinaryField> NttLookup<F> {
    /// The weight of bit `i` at an output point.
    pub open spec fn weight(self, point: int, i: int) -> F {
        self.table@[entry(i / 8, one_hot(i), point)]
    }

    /// The weights of all bits at an output point.
    pub open spec fn weights(self, point: int) -> Seq<F> {
        Seq::new(64, |i: int| self.weight(point, i))
    }

    /// Every contribution is the sum of those of the set bits.
    pub open spec fn wf(self) -> bool {
        &&& self.table@.len() == 131072
        &&& forall|b: int, v: int, x: int|
            0 <= b < 8 && 0 <= v < 256 && 0 <= x < 64 ==> #[trigger] self.table@[entry(b, v, x)]
                == sum(|t: int| keep_if(byte_bit(v, t), self.weight(x, 8 * b + t)), 8)
    }

    /// Builds the table for a 64-point input domain and the points of an output domain.
    pub fn new(ntt_input_domain: &BinarySubspace<F>, ntt_output_domain: &[F]) -> (r: Self)
        requires
            ntt_input_domain.basis@.len() == 6,
            ntt_output_domain@.len() == 64,
        ensures
            r.wf(),
            forall|x: int|
                0 <= x < 64 ==> #[trigger] r.weights(x) == lagrange_of(
                    subspace_points(ntt_input_domain.basis@),
                    ntt_output_domain@[x],
                ),
    {
        proof {
            lemma2_to64();
        }
        let points = ntt_input_domain.points();
        let weights = lagrange_weights(&points);
        let mut lagrange_evals: Vec<Vec<F>> = Vec::new();
        for x in 0..64
            invariant
                pow2(6) == 64,
                ntt_input_domain.basis@.len() == 6,
                ntt_output_domain@.len() == 64,
                points@ == subspace_points(ntt_input_domain.basis@),
                weights@ == Seq::new(points@.len(), |i: int| weight_of(points@, i)),
                lagrange_evals@.len() == x,
                forall|k: int|
                    0 <= k < x ==> (#[trigger] lagrange_evals@[k])@ == lagrange_of(
                        points@,
                        ntt_output_domain@[k],
                    ),
        {
            lagrange_evals.push(
                lagrange_evals_with_weights(&points, &weights, ntt_output_domain[x]),
            );
        }
        Self::from_lagrange_evals(&lagrange_evals)
    }

    /// Builds the table for the upper half of the first prover-message domain.
    pub fn for_upper_half_domain(prover_message_domain: &BinarySubspace<F>) -> (r: Self)
        requires
            prover_message_domain.basis@.len() == 7,
        ensures
            r.wf(),
            r.extends_to_upper_half(prover_message_domain.basis@),
    {
        let (input_domain, output_domain) = upper_half_domains(prover_message_domain);
        Self::new(&input_domain, output_domain.as_slice())
    }

    /// Whether the table extends the bits from the lower half of a domain to its upper half.
    pub open spec fn extends_to_upper_half(self, basis: Seq<F>) -> bool {
        forall|x: int|
            0 <= x < 64 ==> #[trigger] self.weights(x) == lagrange_of(
                subspace_points(basis.take(6)),
                subspace_point(basis, 64 + x),
            )
    }

    /// Builds the table from the Lagrange evaluations of the input domain at each output point.
    pub fn from_lagrange_evals(lagrange_evals: &Vec<Vec<F>>) -> (r: Self)
        requires
            lagrange_evals@.len() == 64,
            forall|x: int| 0 <= x < 64 ==> (#[trigger] lagrange_evals@[x])@.len() == 64,
        ensures
            r.wf(),
            forall|x: int| 0 <= x < 64 ==> #[trigger] r.weights(x) == lagrange_evals@[x]@,
    {
        let mut table: Vec<F> = Vec::new();
        for row in 0..2048
            invariant
                lagrange_evals@.len() == 64,
                forall|x: int| 0 <= x < 64 ==> (#[trigger] lagrange_evals@[x])@.len() == 64,
                table@.len() == 64 * row,
                forall|i: int|
                    0 <= i < table@.len() ==> #[trigger] table@[i] == table_entry(
                        lagrange_evals@,
                        i,
                    ),
        {
            let byte_idx: usize = row / 256;
            let byte_value: usize = row % 256;
            for point in 0..64
                invariant
                    lagrange_evals@.len() == 64,
                    forall|x: int| 0 <= x < 64 ==> (#[trigger] lagrange_evals@[x])@.len() == 64,
                    row < 2048,
                    byte_idx == row / 256,
                    byte_value == row % 256,
                    table@.len() == 64 * row + point,
                    forall|i: int|
                        0 <= i < table@.len() ==> #[trigger] table@[i] == table_entry(
                            lagrange_evals@,
                            i,
                        ),
            {
                let weights = &lagrange_evals[point];
                let ghost w = lagrange_evals@[point as int]@;
                let ghost f = |t: int| keep_if(byte_bit(byte_value as int, t), w[8 * byte_idx + t]);
                let mut acc = F::zero();
                for t in 0..8
                    invariant
                        weights@ == w,
                        w.len() == 64,
                        byte_idx < 8,
                        byte_value < 256,
                        f == (|t: int|
                            keep_if(byte_bit(byte_value as int, t), w[8 * byte_idx + t])),
                        acc == sum(f, t as nat),
                {
                    proof {
                        lemma_zero(acc);
                        assert(sum(f, (t + 1) as nat) == sum(f, t as nat).plus(f(t as int)));
                    }
                    if ((byte_value as u64) >> (t as u64)) & 1 == 1 {
                        acc = acc.add(weights[8 * byte_idx + t]);
                    }
                }
                proof {
                    let i = 64 * row + point;
                    assert(i / 64 == row && i % 64 == point);
                }
                table.push(acc);
            }
        }
        let r = NttLookup { table };
        proof {
            assert forall|x: int, i: int| 0 <= x < 64 && 0 <= i < 64 implies #[trigger] r.weight(
                x,
                i,
            ) == lagrange_evals@[x]@[i] by {
                lemma_one_hot_weight(r, lagrange_evals@, x, i);
            }
            assert forall|x: int| 0 <= x < 64 implies #[trigger] r.weights(x)
                == lagrange_evals@[x]@ by {
                assert(r.weights(x) =~= lagrange_evals@[x]@);
            }
            assert forall|b: int, v: int, x: int|
                0 <= b < 8 && 0 <= v < 256 && 0 <= x < 64 implies #[trigger] r.table@[entry(b, v, x)]
                == sum(|t: int| keep_if(byte_bit(v, t), r.weight(x, 8 * b + t)), 8) by {
                let i = entry(b, v, x);
                assert(i / 64 == 256 * b + v && i % 64 == x);
                assert((256 * b + v) / 256 == b && (256 * b + v) % 256 == v);
                let w = lagrange_evals@[x]@;
                lemma_sum_ext(
                    |t: int| keep_if(byte_bit(v, t), w[8 * b + t]),
                    |t: int| keep_if(byte_bit(v, t), r.weight(x, 8 * b + t)),
                    8,
                );
            }
        }
        r
    }

    /// Evaluates a 64-bit word, taken as 64 one-bit coefficients, at the 64 output points.
    pub fn eval_word(&self, word: u64) -> (r: [F; 64])
        requires
            self.wf(),
        ensures
            forall|x: int|
                0 <= x < 64 ==> #[trigger] r[x] == fold_word(word, self.weights(x)),
    {
        let mut r: [F; 64] = [F::zero(); 64];
        for byte_idx in 0..8
            invariant
                self.wf(),
                forall|x: int|
                    0 <= x < 64 ==> #[trigger] r[x] == sum(
                        |b: int| self.table@[entry(b, byte_of(word, b), x)],
                        byte_idx as nat,
                    ),
        {
            let byte_value: usize = ((word >> ((8 * byte_idx) as u64)) & 0xff) as usize;
            let ghost before = r@;
            proof {
                lemma_byte_bits(word, byte_idx as u64, 0);
            }
            for x in 0..64
                invariant
                    self.wf(),
                    byte_idx < 8,
                    byte_value < 256,
                    before.len() == 64,
                    forall|k: int|
                        0 <= k < x ==> #[trigger] r[k] == before[k].plus(
                            self.table@[entry(byte_idx as int, byte_value as int, k)],
                        ),
                    forall|k: int| x <= k < 64 ==> #[trigger] r[k] == before[k],
            {
                let at: usize = (256 * byte_idx + byte_value) * 64 + x;
                r[x] = r[x].add(self.table[at]);
            }
            proof {
                assert forall|x: int| 0 <= x < 64 implies #[trigger] r[x] == sum(
                    |b: int| self.table@[entry(b, byte_of(word, b), x)],
                    (byte_idx + 1) as nat,
                ) by {
                    let f = |b: int| self.table@[entry(b, byte_of(word, b), x)];
                    assert(sum(f, (byte_idx + 1) as nat) == sum(f, byte_idx as nat).plus(
                        f(byte_idx as int),
                    ));
                    assert(before[x] == sum(f, byte_idx as nat));
                    assert(byte_of(word, byte_idx as int) == byte_value);
                }
            }
        }
        proof {
            assert forall|x: int| 0 <= x < 64 implies #[trigger] r[x] == fold_word(
                word,
                self.weights(x),
            ) by {
                lemma_bytes_fold(*self, word, x);
            }
        }
        r
    }
}

/// Byte `b` of a word.
pub open spec fn byte_of(word: u64, b: int) -> int {
    ((word >> ((8 * b) as u64)) & 0xff) as int
}

proof fn lemma_byte_bits(word: u64, b: u64, t: u64)
    by (bit_vector)
    requires
        b < 8,
        t < 8,
    ensures
        ((word >> ((8 * b) as u64)) & 0xff) < 256,
        ((((word >> ((8 * b) as u64)) & 0xff) >> t) & 1 == 1) == ((word >> ((8 * b + t) as u64)) & 1
            == 1),
        (1u64 << t) < 256,
        forall|s: u64| s < 8 ==> (#[trigger] (((1u64 << t) >> s) & 1) == 1) == (s == t),
{
}

spec fn table_entry<F: BinaryField>(lag: Seq<Vec<F>>, i: int) -> F {
    let row = i / 64;
    sum(|t: int| keep_if(byte_bit(row % 256, t), lag[i % 64]@[8 * (row / 256) + t]), 8)
}

proof fn lemma_one_hot_weight<F: BinaryField>(
    lookup: NttLookup<F>,
    lag: Seq<Vec<F>>,
    x: int,
    i: int,
)
    requires
        lookup.table@.len() == 131072,
        forall|k: int|
            0 <= k < lookup.table@.len() ==> #[trigger] lookup.table@[k] == table_entry(lag, k),
        0 <= x < 64,
        0 <= i < 64,
    ensures
        lookup.weight(x, i) == lag[x]@[i],
{
    let (b, s) = (i / 8, i % 8);
    let v = one_hot(i);
    lemma_byte_bits(0, b as u64, s as u64);
    assert(0 <= v < 256);
    let k = entry(b, v, x);
    let row = 256 * b + v;
    assert(k / 64 == row && k % 64 == x);
    assert(row / 256 == b && row % 256 == v);
    let f = |t: int| keep_if(byte_bit(row % 256, t), lag[k % 64]@[8 * (row / 256) + t]);
    assert forall|t: int| 0 <= t < 8 && t != s implies #[trigger] f(t) == F::zero_of() by {
        assert((((1u64 << (s as u64)) >> (t as u64)) & 1) != 1);
    }
    assert((((1u64 << (s as u64)) >> (s as u64)) & 1) == 1);
    lemma_sum_single(f, s, 8);
    assert(8 * b + s == i);
}

proof fn lemma_bytes_fold<F: BinaryField>(lookup: NttLookup<F>, word: u64, x: int)
    requires
        lookup.wf(),
        0 <= x < 64,
    ensures
        sum(|b: int| lookup.table@[entry(b, byte_of(word, b), x)], 8) == fold_word(
            word,
            lookup.weights(x),
        ),
{
    let w = lookup.weights(x);
    let f = |i: int| keep_if(bit64(word, i), w[i]);
    let g = |b: int| lookup.table@[entry(b, byte_of(word, b), x)];
    lemma_sum_blocks(f, 8, 8);
    let blocks = |b: int| sum(|t: int| f(b * 8nat + t), 8);
    assert forall|b: int| 0 <= b < 8 implies #[trigger] g(b) == blocks(b) by {
        let v = byte_of(word, b);
        lemma_byte_bits(word, b as u64, 0);
        let h = |t: int| keep_if(byte_bit(v, t), lookup.weight(x, 8 * b + t));
        let k = |t: int| f(b * 8nat + t);
        assert forall|t: int| 0 <= t < 8 implies #[trigger] h(t) == k(t) by {
            lemma_byte_bits(word, b as u64, t as u64);
            assert((8 * (b as u64) + (t as u64)) as u64 == (b * 8 + t) as u64);
        }
        lemma_sum_ext(h, k, 8);
        assert(lookup.table@[entry(b, v, x)] == sum(h, 8));
    }
    lemma_sum_ext(g, blocks, 8);
    assert(8nat * 8nat == 64);
}

/// The input domain spanned by all but the last basis element, and the same points moved by that
/// element.
pub fn upper_half_domains<F: BinaryField>(prover_message_domain: &BinarySubspace<F>) -> (r: (
    BinarySubspace<F>,
    Vec<F>,
))
    requires
        prover_message_domain.basis@.len() == 7,
    ensures
        r.0.basis@ == prover_message_domain.basis@.take(6),
        r.1@ == Seq::new(
            64,
            |i: int| subspace_point(prover_message_domain.basis@, 64 + i),
        ),
{
    let shift = prover_message_domain.basis[LOG_LANE_BITS];
    let input_domain = prover_message_domain.reduce_dim(LOG_LANE_BITS);
    proof {
        lemma2_to64();
        assert(pow2(6) == 64);
    }
    let points = input_domain.points();
    let mut output: Vec<F> = Vec::new();
    for i in 0..64
        invariant
            points@ == subspace_points(prover_message_domain.basis@.take(6)),
            points@.len() == 64,
            pow2(6) == 64,
            prover_message_domain.basis@.len() == 7,
            shift == prover_message_domain.basis@[6],
            output@.len() == i,
            forall|k: int|
                0 <= k < i ==> #[trigger] output@[k] == subspace_point(
                    prover_message_domain.basis@,
                    64 + k,
                ),
    {
        proof {
            let b = prover_message_domain.basis@;
            assert(b.drop_last() =~= b.take(6));
            assert(subspace_point(b, 64 + i) == subspace_point(b.drop_last(), i as int).plus(
                b.last(),
            ));
        }
        output.push(points[i].add(shift));
    }
    assert(output@ =~= Seq::new(
        64,
        |i: int| subspace_point(prover_message_domain.basis@, 64 + i),
    ));
    (input_domain, output)
}

/// The chi residual of a lane, extended by the bit weights `w`: `P * Q - R - A_next - Iota` of
/// the folded words.
pub open spec fn folded_residual<F: BinaryField>(
    w: Seq<F>,
    pre_chi: Seq<u64>,
    next: Seq<u64>,
    round: int,
    lane: int,
) -> F {
    fold_word(!pre_chi[right_of(lane, 1)], w).times(fold_word(pre_chi[right_of(lane, 2)], w)).plus(
        fold_word(pre_chi[lane], w),
    ).plus(fold_word(next[lane], w)).plus(fold_word(iota_word(round, lane), w))
}

/// Evaluates the chi residual of a lane at the 64 output points.
pub fn lane_residual_evals<F: BinaryField>(
    lookup: &NttLookup<F>,
    pre_chi: &State,
    next: &State,
    round: usize,
    lane_idx: usize,
) -> (r: [F; 64])
    requires
        lookup.wf(),
        round < 24,
        lane_idx < 25,
    ensures
        forall|x: int|
            0 <= x < 64 ==> #[trigger] r[x] == folded_residual(
                lookup.weights(x),
                pre_chi@,
                next@,
                round as int,
                lane_idx as int,
            ),
{
    proof {
        lemma_chi_operand_lanes(lane_idx as int);
    }
    let (p_lane, q_lane, r_lane) = CHI_OPERAND_LANES[lane_idx];
    let p = lookup.eval_word(!pre_chi[p_lane]);
    let q = lookup.eval_word(pre_chi[q_lane]);
    let r = lookup.eval_word(pre_chi[r_lane]);
    let next_evals = lookup.eval_word(next[lane_idx]);
    let iota = lookup.eval_word(
        if lane_idx == 0 {
            ROUND_CONSTANTS[round]
        } else {
            0
        },
    );
    let mut out: [F; 64] = [F::zero(); 64];
    for x in 0..64
        invariant
            forall|k: int|
                0 <= k < x ==> #[trigger] out[k] == p[k].times(q[k]).plus(r[k]).plus(
                    next_evals[k],
                ).plus(iota[k]),
    {
        out[x] = p[x].mul(q[x]).add(r[x]).add(next_evals[x]).add(iota[x]);
    }
    out
}

/// Evaluates the chi residuals of all lanes at the 64 output points.
pub fn upper_half_residual_evals<F: BinaryField>(
    lookup: &NttLookup<F>,
    pre_chi: &State,
    next: &State,
    round: usize,
) -> (r: Vec<[F; 64]>)
    requires
        lookup.wf(),
        round < 24,
    ensures
        r@.len() == 25,
        forall|lane: int, x: int|
            0 <= lane < 25 && 0 <= x < 64 ==> #[trigger] r@[lane][x] == folded_residual(
                lookup.weights(x),
                pre_chi@,
                next@,
                round as int,
                lane,
            ),
{
    let mut out: Vec<[F; 64]> = Vec::new();
    for lane_idx in 0..N_LANES
        invariant
            lookup.wf(),
            round < 24,
            out@.len() == lane_idx,
            forall|lane: int, x: int|
                0 <= lane < lane_idx && 0 <= x < 64 ==> #[trigger] out@[lane][x]
                    == folded_residual(
                    lookup.weights(x),
                    pre_chi@,
                    next@,
                    round as int,
                    lane,
                ),
    {
        out.push(lane_residual_evals(lookup, pre_chi, next, round, lane_idx));
    }
    out
}

proof fn lemma_zero_bit(i: u64)
    by (bit_vector)
    requires
        i < 64,
    ensures
        (0u64 >> i) & 1 == 0,
{
}

/// A lookup is linear over XOR: the zero word evaluates to zero at every output point, and the XOR
/// of two words to the sum of what they evaluate to.
pub proof fn lemma_lookup_linear<F: BinaryField>(lookup: NttLookup<F>, a: u64, b: u64, x: int)
    requires
        lookup.wf(),
        0 <= x < 64,
    ensures
        fold_word(0, lookup.weights(x)) == F::zero_of(),
        fold_word(a ^ b, lookup.weights(x)) == fold_word(a, lookup.weights(x)).plus(
            fold_word(b, lookup.weights(x)),
        ),
{
    let l = lookup.weights(x);
    lemma_fold_xor(a, b, l);
    assert forall|i: int| 0 <= i < 64 implies !#[trigger] bit64(0, i) by {
        lemma_zero_bit(i as u64);
    }
    lemma_sum_zero(|i: int| keep_if(bit64(0, i), l[i]), 64);
}

} // verus!
