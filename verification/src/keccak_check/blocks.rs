//! Keccak states with field elements for bits, and the round polynomial on them.
//!
//! A block holds 64 field elements per lane; entry `64 * lane + bit` stands for one bit of the
//! state. A state of words is the block of its bits.
use crate::circuit::word::rotl64;
use crate::field::BinaryField;
use crate::keccak_prove::constants::{RHO_OFFSETS, ROUND_CONSTANTS};
use crate::keccak_prove::shift_evals::{fold_word, lemma_fold_xor};
use crate::keccak_prove::trace::{
    chi_iota_of, chi_lane, column, pre_chi_of, rho_pi_source, right_of, round_state, theta_of,
    theta_word,
};
use crate::math::sums::{
    keep_if, lemma_distr, lemma_plus_swap, lemma_sum_ext, lemma_sum_plus, lemma_sum_scale,
    lemma_sum_single, lemma_times_swap, lemma_zero, sum,
};
use crate::verify::shift_laws::{bit64, indicator};
use vstd::prelude::*;

verus! {

/// The entry of a block for one bit of one lane.
pub open spec fn at<F>(b: Seq<F>, lane: int, bit: int) -> F {
    b[64 * lane + bit]
}

/// The block of the bits of a state.
pub open spec fn bit_block<F: BinaryField>(s: Seq<u64>) -> Seq<F> {
    Seq::new(1600, |i: int| indicator::<F>(bit64(s[i / 64], i % 64)))
}

/// The bit below `bit`, cyclically, by `n` places.
pub open spec fn below(bit: int, n: int) -> int {
    if n <= bit {
        bit - n
    } else {
        bit - n + 64
    }
}

/// The parity of a column of lanes at a bit.
pub open spec fn column_sum<F: BinaryField>(b: Seq<F>, x: int, bit: int) -> F {
    at(b, x, bit).plus(at(b, x + 5, bit)).plus(at(b, x + 10, bit)).plus(at(b, x + 15, bit)).plus(
        at(b, x + 20, bit),
    )
}

/// The theta correction of a column at a bit.
pub open spec fn theta_sum<F: BinaryField>(b: Seq<F>, x: int, bit: int) -> F {
    column_sum(b, (x + 4) % 5, bit).plus(column_sum(b, (x + 1) % 5, below(bit, 1)))
}

/// The pre-chi value of a lane at a bit: theta, rho and pi, extended linearly.
pub open spec fn pre_chi_at<F: BinaryField>(b: Seq<F>, lane: int, bit: int) -> F {
    let source = rho_pi_source(lane);
    let k = below(bit, RHO_OFFSETS[source] as int);
    at(b, source, k).plus(theta_sum(b, source % 5, k))
}

/// The chi value of a lane at a bit: `a + c + b c` of the pre-chi values.
pub open spec fn chi_at<F: BinaryField>(b: Seq<F>, lane: int, bit: int) -> F {
    let (x, y, z) = (
        pre_chi_at(b, lane, bit),
        pre_chi_at(b, right_of(lane, 1), bit),
        pre_chi_at(b, right_of(lane, 2), bit),
    );
    x.plus(z).plus(y.times(z))
}

/// The quadratic part of chi along the line from `lo` to `hi`.
pub open spec fn chi_inf_at<F: BinaryField>(lo: Seq<F>, hi: Seq<F>, lane: int, bit: int) -> F {
    let y = pre_chi_at(lo, right_of(lane, 1), bit).plus(pre_chi_at(hi, right_of(lane, 1), bit));
    let z = pre_chi_at(lo, right_of(lane, 2), bit).plus(pre_chi_at(hi, right_of(lane, 2), bit));
    y.times(z)
}

/// A weighted sum over lanes and bits.
pub open spec fn mixed<F: BinaryField>(
    f: spec_fn(int, int) -> F,
    lane_weights: Seq<F>,
    bit_weights: Seq<F>,
) -> F {
    sum(
        |lane: int|
            lane_weights[lane].times(
                sum(|bit: int| bit_weights[bit].times(f(lane, bit)), 64),
            ),
        25,
    )
}

/// The mixed value of a block: its entries weighted by lane and bit.
pub open spec fn output_value<F: BinaryField>(b: Seq<F>, lw: Seq<F>, bw: Seq<F>) -> F {
    mixed(|lane: int, bit: int| at(b, lane, bit), lw, bw)
}

/// The mixed value of the round polynomial on a block: chi of the pre-chi values, and the round
/// constant.
pub open spec fn round_value<F: BinaryField>(b: Seq<F>, lw: Seq<F>, round: int, bw: Seq<F>) -> F {
    mixed(|lane: int, bit: int| chi_at(b, lane, bit), lw, bw).plus(
        lw[0].times(fold_word(ROUND_CONSTANTS[round], bw)),
    )
}

/// The quadratic coefficient of the round polynomial along the line from `lo` to `hi`.
pub open spec fn round_inf<F: BinaryField>(lo: Seq<F>, hi: Seq<F>, lw: Seq<F>, bw: Seq<F>) -> F {
    mixed(|lane: int, bit: int| chi_inf_at(lo, hi, lane, bit), lw, bw)
}

/// The point at parameter `t` of the line from `lo` to `hi`.
pub open spec fn line_block<F: BinaryField>(lo: Seq<F>, hi: Seq<F>, t: F) -> Seq<F> {
    Seq::new(1600, |i: int| F::one_of().plus(t).times(lo[i]).plus(t.times(hi[i])))
}

// ---------------------------------------------------------------------------
// Words and blocks
// ---------------------------------------------------------------------------

proof fn lemma_rotl_bit(x: u64, n: u32, i: u64)
    by (bit_vector)
    requires
        n < 64,
        i < 64,
    ensures
        ((rotl64(x, n) >> i) & 1 == 1) == ((x >> (if n <= i {
            (i - n) as u64
        } else {
            (i - n + 64) as u64
        })) & 1 == 1),
{
}

proof fn lemma_logic_bits(x: u64, y: u64, i: u64)
    by (bit_vector)
    requires
        i < 64,
    ensures
        (((x ^ y) >> i) & 1 == 1) == (((x >> i) & 1 == 1) != ((y >> i) & 1 == 1)),
        (((x & y) >> i) & 1 == 1) == (((x >> i) & 1 == 1) && ((y >> i) & 1 == 1)),
        (((!x) >> i) & 1 == 1) == !((x >> i) & 1 == 1),
{
}

/// The indicator of an exclusive or is the sum of the indicators, and that of a conjunction is
/// their product.
pub proof fn lemma_indicator<F: BinaryField>(a: bool, b: bool)
    ensures
        indicator::<F>(a != b) == indicator::<F>(a).plus(indicator::<F>(b)),
        indicator::<F>(a && b) == indicator::<F>(a).times(indicator::<F>(b)),
{
    let one = F::one_of();
    lemma_zero(one);
    lemma_zero(F::zero_of());
    F::lemma_plus(one, one, one);
}

proof fn lemma_bit_at<F: BinaryField>(s: Seq<u64>, lane: int, bit: int)
    requires
        0 <= lane < 25,
        0 <= bit < 64,
    ensures
        at(bit_block::<F>(s), lane, bit) == indicator::<F>(bit64(s[lane], bit)),
{
    let i = 64 * lane + bit;
    assert(i / 64 == lane && i % 64 == bit);
}

proof fn lemma_column_bits<F: BinaryField>(s: Seq<u64>, x: int, bit: int)
    requires
        s.len() == 25,
        0 <= x < 5,
        0 <= bit < 64,
    ensures
        column_sum(bit_block::<F>(s), x, bit) == indicator::<F>(bit64(column(s, x), bit)),
{
    let i = bit as u64;
    lemma_bit_at::<F>(s, x, bit);
    lemma_bit_at::<F>(s, x + 5, bit);
    lemma_bit_at::<F>(s, x + 10, bit);
    lemma_bit_at::<F>(s, x + 15, bit);
    lemma_bit_at::<F>(s, x + 20, bit);
    let c1 = s[x] ^ s[x + 5];
    let c2 = c1 ^ s[x + 10];
    let c3 = c2 ^ s[x + 15];
    lemma_logic_bits(s[x], s[x + 5], i);
    lemma_logic_bits(c1, s[x + 10], i);
    lemma_logic_bits(c2, s[x + 15], i);
    lemma_logic_bits(c3, s[x + 20], i);
    lemma_indicator::<F>(bit64(s[x], bit), bit64(s[x + 5], bit));
    lemma_indicator::<F>(bit64(c1, bit), bit64(s[x + 10], bit));
    lemma_indicator::<F>(bit64(c2, bit), bit64(s[x + 15], bit));
    lemma_indicator::<F>(bit64(c3, bit), bit64(s[x + 20], bit));
}

/// The pre-chi values of the bits of a state are the bits of its pre-chi state.
pub proof fn lemma_pre_chi_bits<F: BinaryField>(s: Seq<u64>, lane: int, bit: int)
    requires
        s.len() == 25,
        0 <= lane < 25,
        0 <= bit < 64,
    ensures
        pre_chi_at(bit_block::<F>(s), lane, bit) == indicator::<F>(bit64(pre_chi_of(s)[lane], bit)),
{
    reveal(pre_chi_of);
    crate::keccak_prove::shift_operands::lemma_rho_pi_preimage(lane);
    let source = rho_pi_source(lane);
    let rho = RHO_OFFSETS[source];
    let k = below(bit, rho as int);
    let x = source % 5;
    let (cl, cr) = (column(s, (x + 4) % 5), column(s, (x + 1) % 5));
    lemma_bit_at::<F>(s, source, k);
    lemma_column_bits::<F>(s, (x + 4) % 5, k);
    lemma_column_bits::<F>(s, (x + 1) % 5, below(k, 1));
    lemma_rotl_bit(cr, 1, k as u64);
    let t = theta_word(s, x);
    lemma_logic_bits(cl, rotl64(cr, 1), k as u64);
    lemma_indicator::<F>(bit64(cl, k), bit64(rotl64(cr, 1), k));
    lemma_logic_bits(s[source], t, k as u64);
    lemma_indicator::<F>(bit64(s[source], k), bit64(t, k));
    let w = s[source] ^ t;
    lemma_rotl_bit(w, rho, bit as u64);
    assert(theta_of(s)[source] == w);
    assert(pre_chi_of(s)[lane] == rotl64(w, rho));
}

/// Whether two families of values agree on all lanes and bits.
pub open spec fn same_values<F>(f: spec_fn(int, int) -> F, g: spec_fn(int, int) -> F) -> bool {
    forall|lane: int, bit: int|
        0 <= lane < 25 && 0 <= bit < 64 ==> #[trigger] f(lane, bit) == g(lane, bit)
}

/// The mixed values of families that agree are equal.
pub proof fn lemma_mixed_ext<F: BinaryField>(
    f: spec_fn(int, int) -> F,
    g: spec_fn(int, int) -> F,
    lw: Seq<F>,
    bw: Seq<F>,
)
    requires
        same_values(f, g),
    ensures
        mixed(f, lw, bw) == mixed(g, lw, bw),
{
    let a = |lane: int| lw[lane].times(sum(|bit: int| bw[bit].times(f(lane, bit)), 64));
    let b = |lane: int| lw[lane].times(sum(|bit: int| bw[bit].times(g(lane, bit)), 64));
    assert forall|lane: int| 0 <= lane < 25 implies #[trigger] a(lane) == b(lane) by {
        let x = |bit: int| bw[bit].times(f(lane, bit));
        let y = |bit: int| bw[bit].times(g(lane, bit));
        assert forall|bit: int| 0 <= bit < 64 implies #[trigger] x(bit) == y(bit) by {
            assert(f(lane, bit) == g(lane, bit));
        }
        lemma_sum_ext(x, y, 64);
    }
    lemma_sum_ext(a, b, 25);
}

/// The mixed value of a sum of families.
pub proof fn lemma_mixed_plus<F: BinaryField>(
    f: spec_fn(int, int) -> F,
    g: spec_fn(int, int) -> F,
    lw: Seq<F>,
    bw: Seq<F>,
)
    ensures
        mixed(|lane: int, bit: int| f(lane, bit).plus(g(lane, bit)), lw, bw) == mixed(
            f,
            lw,
            bw,
        ).plus(mixed(g, lw, bw)),
{
    let h = |lane: int, bit: int| f(lane, bit).plus(g(lane, bit));
    let a = |lane: int| lw[lane].times(sum(|bit: int| bw[bit].times(f(lane, bit)), 64));
    let b = |lane: int| lw[lane].times(sum(|bit: int| bw[bit].times(g(lane, bit)), 64));
    let c = |lane: int| lw[lane].times(sum(|bit: int| bw[bit].times(h(lane, bit)), 64));
    assert forall|lane: int| 0 <= lane < 25 implies #[trigger] c(lane) == a(lane).plus(b(lane)) by {
        let x = |bit: int| bw[bit].times(f(lane, bit));
        let y = |bit: int| bw[bit].times(g(lane, bit));
        let z = |bit: int| bw[bit].times(h(lane, bit));
        assert forall|bit: int| 0 <= bit < 64 implies #[trigger] z(bit) == x(bit).plus(y(bit)) by {
            lemma_distr(f(lane, bit), g(lane, bit), bw[bit]);
        }
        lemma_sum_ext(z, |bit: int| x(bit).plus(y(bit)), 64);
        lemma_sum_plus(x, y, 64);
        lemma_distr(sum(x, 64), sum(y, 64), lw[lane]);
    }
    lemma_sum_ext(c, |lane: int| a(lane).plus(b(lane)), 25);
    lemma_sum_plus(a, b, 25);
}

/// The mixed value of a scaled family.
pub proof fn lemma_mixed_scale<F: BinaryField>(
    t: F,
    f: spec_fn(int, int) -> F,
    lw: Seq<F>,
    bw: Seq<F>,
)
    ensures
        mixed(|lane: int, bit: int| t.times(f(lane, bit)), lw, bw) == t.times(mixed(f, lw, bw)),
{
    let h = |lane: int, bit: int| t.times(f(lane, bit));
    let a = |lane: int| lw[lane].times(sum(|bit: int| bw[bit].times(f(lane, bit)), 64));
    let c = |lane: int| lw[lane].times(sum(|bit: int| bw[bit].times(h(lane, bit)), 64));
    assert forall|lane: int| 0 <= lane < 25 implies #[trigger] c(lane) == t.times(a(lane)) by {
        let x = |bit: int| bw[bit].times(f(lane, bit));
        let z = |bit: int| bw[bit].times(h(lane, bit));
        assert forall|bit: int| 0 <= bit < 64 implies #[trigger] z(bit) == t.times(x(bit)) by {
            F::lemma_times(bw[bit], t, f(lane, bit));
            F::lemma_times(t, bw[bit], f(lane, bit));
        }
        lemma_sum_ext(z, |bit: int| t.times(x(bit)), 64);
        lemma_sum_scale(t, x, 64);
        F::lemma_times(lw[lane], t, sum(x, 64));
        F::lemma_times(t, lw[lane], sum(x, 64));
    }
    lemma_sum_ext(c, |lane: int| t.times(a(lane)), 25);
    lemma_sum_scale(t, a, 25);
}

/// The mixed value of the bits of words: their folds, weighted by lane.
pub open spec fn word_value<F: BinaryField>(s: Seq<u64>, lw: Seq<F>, bw: Seq<F>) -> F {
    sum(|lane: int| lw[lane].times(fold_word(s[lane], bw)), 25)
}

/// The mixed value of indicator bits is that of the words.
pub proof fn lemma_mixed_bits<F: BinaryField>(
    f: spec_fn(int, int) -> F,
    s: Seq<u64>,
    lw: Seq<F>,
    bw: Seq<F>,
)
    requires
        s.len() == 25,
        bw.len() == 64,
        forall|lane: int, bit: int|
            0 <= lane < 25 && 0 <= bit < 64 ==> #[trigger] f(lane, bit) == indicator::<F>(
                bit64(s[lane], bit),
            ),
    ensures
        mixed(f, lw, bw) == word_value(s, lw, bw),
{
    let a = |lane: int| lw[lane].times(sum(|bit: int| bw[bit].times(f(lane, bit)), 64));
    let b = |lane: int| lw[lane].times(fold_word(s[lane], bw));
    assert forall|lane: int| 0 <= lane < 25 implies #[trigger] a(lane) == b(lane) by {
        let x = |bit: int| bw[bit].times(f(lane, bit));
        let y = |bit: int| keep_if(bit64(s[lane], bit), bw[bit]);
        assert forall|bit: int| 0 <= bit < 64 implies #[trigger] x(bit) == y(bit) by {
            assert(f(lane, bit) == indicator::<F>(bit64(s[lane], bit)));
            lemma_zero(bw[bit]);
        }
        lemma_sum_ext(x, y, 64);
    }
    lemma_sum_ext(a, b, 25);
}

/// The output value of the bits of a state.
pub proof fn lemma_output_of_words<F: BinaryField>(s: Seq<u64>, lw: Seq<F>, bw: Seq<F>)
    requires
        s.len() == 25,
        bw.len() == 64,
    ensures
        output_value(bit_block::<F>(s), lw, bw) == word_value(s, lw, bw),
{
    let b = bit_block::<F>(s);
    let f = |lane: int, bit: int| at(b, lane, bit);
    assert forall|lane: int, bit: int| 0 <= lane < 25 && 0 <= bit < 64 implies #[trigger] f(
        lane,
        bit,
    ) == indicator::<F>(bit64(s[lane], bit)) by {
        lemma_bit_at::<F>(s, lane, bit);
    }
    lemma_mixed_bits(f, s, lw, bw);
}

/// Chi of the words of a pre-chi state, without the round constant.
pub open spec fn chi_words(p: Seq<u64>) -> Seq<u64> {
    Seq::new(25, |i: int| chi_lane(p, i))
}

/// On the bits of a state the round polynomial is the output value of the next state: the mixed
/// claim of a round's output is a claim on its input.
pub proof fn lemma_round_of_words<F: BinaryField>(s: Seq<u64>, lw: Seq<F>, round: int, bw: Seq<F>)
    requires
        s.len() == 25,
        bw.len() == 64,
        0 <= round < 24,
    ensures
        round_value(bit_block::<F>(s), lw, round, bw) == word_value(round_state(s, round), lw, bw),
        round_value(bit_block::<F>(s), lw, round, bw) == output_value(
            bit_block::<F>(round_state(s, round)),
            lw,
            bw,
        ),
{
    reveal(chi_iota_of);
    let b = bit_block::<F>(s);
    let p = pre_chi_of(s);
    assert(p.len() == 25) by {
        reveal(pre_chi_of);
    }
    let next = round_state(s, round);
    let f = |lane: int, bit: int| chi_at(b, lane, bit);
    let c = chi_words(p);
    assert forall|lane: int, bit: int| 0 <= lane < 25 && 0 <= bit < 64 implies #[trigger] f(
        lane,
        bit,
    ) == indicator::<F>(bit64(c[lane], bit)) by {
        let (l1, l2) = (right_of(lane, 1), right_of(lane, 2));
        lemma_pre_chi_bits::<F>(s, lane, bit);
        lemma_pre_chi_bits::<F>(s, l1, bit);
        lemma_pre_chi_bits::<F>(s, l2, bit);
        let (x, y, z) = (bit64(p[lane], bit), bit64(p[l1], bit), bit64(p[l2], bit));
        lemma_indicator::<F>(y, z);
        lemma_indicator::<F>(x, z);
        lemma_indicator::<F>(x != z, y && z);
        let i = bit as u64;
        lemma_logic_bits(p[l1], p[l2], i);
        lemma_logic_bits(!p[l1], p[l2], i);
        lemma_logic_bits(p[lane], !p[l1] & p[l2], i);
    }
    lemma_mixed_bits(f, c, lw, bw);
    // the round constant goes to lane 0
    let rc = fold_word(ROUND_CONSTANTS[round], bw);
    let g = |lane: int| lw[lane].times(fold_word(c[lane], bw));
    let h = |lane: int| keep_if(lane == 0, lw[0].times(rc));
    let n = |lane: int| lw[lane].times(fold_word(next[lane], bw));
    assert forall|lane: int| 0 <= lane < 25 implies #[trigger] n(lane) == g(lane).plus(h(lane)) by {
        lemma_zero(g(lane));
        if lane == 0 {
            lemma_fold_xor(c[0], ROUND_CONSTANTS[round], bw);
            lemma_distr(fold_word(c[0], bw), rc, lw[0]);
        }
    }
    lemma_sum_ext(n, |lane: int| g(lane).plus(h(lane)), 25);
    lemma_sum_plus(g, h, 25);
    lemma_sum_single(h, 0, 25);
    assert(next.len() == 25);
    lemma_output_of_words(next, lw, bw);
}

/// The quadratic coefficient on the bits of two states is the fold of the AND of the pre-chi
/// differences.
pub proof fn lemma_inf_of_words<F: BinaryField>(lo: Seq<u64>, hi: Seq<u64>, lw: Seq<F>, bw: Seq<F>)
    requires
        lo.len() == 25,
        hi.len() == 25,
        bw.len() == 64,
    ensures
        round_inf(bit_block::<F>(lo), bit_block::<F>(hi), lw, bw) == word_value(
            inf_words(pre_chi_of(lo), pre_chi_of(hi)),
            lw,
            bw,
        ),
{
    let (bl, bh) = (bit_block::<F>(lo), bit_block::<F>(hi));
    let (pl, ph) = (pre_chi_of(lo), pre_chi_of(hi));
    let f = |lane: int, bit: int| chi_inf_at(bl, bh, lane, bit);
    let w = inf_words(pl, ph);
    assert forall|lane: int, bit: int| 0 <= lane < 25 && 0 <= bit < 64 implies #[trigger] f(
        lane,
        bit,
    ) == indicator::<F>(bit64(w[lane], bit)) by {
        let (l1, l2) = (right_of(lane, 1), right_of(lane, 2));
        lemma_pre_chi_bits::<F>(lo, l1, bit);
        lemma_pre_chi_bits::<F>(lo, l2, bit);
        lemma_pre_chi_bits::<F>(hi, l1, bit);
        lemma_pre_chi_bits::<F>(hi, l2, bit);
        let (a, b) = (bit64(pl[l1], bit), bit64(ph[l1], bit));
        let (c, d) = (bit64(pl[l2], bit), bit64(ph[l2], bit));
        lemma_indicator::<F>(a, b);
        lemma_indicator::<F>(c, d);
        lemma_indicator::<F>(a != b, c != d);
        let i = bit as u64;
        lemma_logic_bits(pl[l1], ph[l1], i);
        lemma_logic_bits(pl[l2], ph[l2], i);
        lemma_logic_bits(pl[l1] ^ ph[l1], pl[l2] ^ ph[l2], i);
    }
    lemma_mixed_bits(f, w, lw, bw);
}

/// The AND of the differences of the two pre-chi neighbours of every lane.
pub open spec fn inf_words(pl: Seq<u64>, ph: Seq<u64>) -> Seq<u64> {
    Seq::new(
        25,
        |i: int|
            (pl[right_of(i, 1)] ^ ph[right_of(i, 1)]) & (pl[right_of(i, 2)] ^ ph[right_of(i, 2)]),
    )
}

// ---------------------------------------------------------------------------
// The round polynomial along a line
// ---------------------------------------------------------------------------

proof fn lemma_line_plus<F: BinaryField>(a0: F, a1: F, b0: F, b1: F, t: F)
    ensures
        crate::verify::shift_laws::line(a0, a1, t).plus(
            crate::verify::shift_laws::line(b0, b1, t),
        ) == crate::verify::shift_laws::line(a0.plus(b0), a1.plus(b1), t),
{
    let u = F::one_of().plus(t);
    lemma_plus_swap(u.times(a0), t.times(a1), u.times(b0), t.times(b1));
    lemma_distr(a0, b0, u);
    lemma_distr(a1, b1, t);
}

proof fn lemma_at_line<F: BinaryField>(lo: Seq<F>, hi: Seq<F>, t: F, lane: int, bit: int)
    requires
        0 <= lane < 25,
        0 <= bit < 64,
    ensures
        at(line_block(lo, hi, t), lane, bit) == crate::verify::shift_laws::line(
            at(lo, lane, bit),
            at(hi, lane, bit),
            t,
        ),
{
    assert(0 <= 64 * lane + bit < 1600);
}

proof fn lemma_column_line<F: BinaryField>(lo: Seq<F>, hi: Seq<F>, t: F, x: int, bit: int)
    requires
        0 <= x < 5,
        0 <= bit < 64,
    ensures
        column_sum(line_block(lo, hi, t), x, bit) == crate::verify::shift_laws::line(
            column_sum(lo, x, bit),
            column_sum(hi, x, bit),
            t,
        ),
{
    lemma_at_line(lo, hi, t, x, bit);
    lemma_at_line(lo, hi, t, x + 5, bit);
    lemma_at_line(lo, hi, t, x + 10, bit);
    lemma_at_line(lo, hi, t, x + 15, bit);
    lemma_at_line(lo, hi, t, x + 20, bit);
    let (l0, l1, l2, l3, l4) = (
        at(lo, x, bit),
        at(lo, x + 5, bit),
        at(lo, x + 10, bit),
        at(lo, x + 15, bit),
        at(lo, x + 20, bit),
    );
    let (h0, h1, h2, h3, h4) = (
        at(hi, x, bit),
        at(hi, x + 5, bit),
        at(hi, x + 10, bit),
        at(hi, x + 15, bit),
        at(hi, x + 20, bit),
    );
    lemma_line_plus(l0, h0, l1, h1, t);
    lemma_line_plus(l0.plus(l1), h0.plus(h1), l2, h2, t);
    lemma_line_plus(l0.plus(l1).plus(l2), h0.plus(h1).plus(h2), l3, h3, t);
    lemma_line_plus(l0.plus(l1).plus(l2).plus(l3), h0.plus(h1).plus(h2).plus(h3), l4, h4, t);
}

/// The pre-chi values are linear along a line.
pub proof fn lemma_pre_chi_line<F: BinaryField>(lo: Seq<F>, hi: Seq<F>, t: F, lane: int, bit: int)
    requires
        0 <= lane < 25,
        0 <= bit < 64,
    ensures
        pre_chi_at(line_block(lo, hi, t), lane, bit) == crate::verify::shift_laws::line(
            pre_chi_at(lo, lane, bit),
            pre_chi_at(hi, lane, bit),
            t,
        ),
{
    crate::keccak_prove::shift_operands::lemma_rho_pi_preimage(lane);
    let source = rho_pi_source(lane);
    let k = below(bit, RHO_OFFSETS[source] as int);
    let x = source % 5;
    let (xl, xr) = ((x + 4) % 5, (x + 1) % 5);
    lemma_at_line(lo, hi, t, source, k);
    lemma_column_line(lo, hi, t, xl, k);
    lemma_column_line(lo, hi, t, xr, below(k, 1));
    lemma_line_plus(
        column_sum(lo, xl, k),
        column_sum(hi, xl, k),
        column_sum(lo, xr, below(k, 1)),
        column_sum(hi, xr, below(k, 1)),
        t,
    );
    lemma_line_plus(
        at(lo, source, k),
        at(hi, source, k),
        theta_sum(lo, x, k),
        theta_sum(hi, x, k),
        t,
    );
}

/// The value at `t` of the quadratic with values `a` at zero and `b` at one and leading
/// coefficient `c`.
pub open spec fn parabola<F: BinaryField>(a: F, b: F, c: F, t: F) -> F {
    crate::verify::shift_laws::line(a, b, t).plus(t.times(t).plus(t).times(c))
}

/// The product of two lines is a parabola whose leading coefficient is the product of the
/// differences.
pub proof fn lemma_line_product<F: BinaryField>(a0: F, a1: F, b0: F, b1: F, t: F)
    ensures
        crate::verify::shift_laws::line(a0, a1, t).times(crate::verify::shift_laws::line(b0, b1, t))
            == parabola(a0.times(b0), a1.times(b1), a0.plus(a1).times(b0.plus(b1)), t),
{
    let one = F::one_of();
    let u = one.plus(t);
    let (p00, p01, p10, p11) = (a0.times(b0), a0.times(b1), a1.times(b0), a1.times(b1));
    let (ua, tb) = (u.times(a0), t.times(a1));
    let (ub, td) = (u.times(b0), t.times(b1));
    // left side: u u p00 + u t p01 + t u p10 + t t p11
    lemma_distr(ub, td, ua);
    lemma_distr(ub, td, tb);
    lemma_distr(ua, tb, ub.plus(td));
    lemma_times_swap(u, a0, u, b0);
    lemma_times_swap(u, a0, t, b1);
    lemma_times_swap(t, a1, u, b0);
    lemma_times_swap(t, a1, t, b1);
    let (uu, ut, tt) = (u.times(u), u.times(t), t.times(t));
    F::lemma_times(t, u, u);
    assert(ua.plus(tb).times(ub.plus(td)) == uu.times(p00).plus(ut.times(p01)).plus(
        ut.times(p10).plus(tt.times(p11)),
    ));
    // u u = u + w, t t = t + w and u t = w, where w = t t + t
    let w = tt.plus(t);
    lemma_distr(one, t, t);
    lemma_zero(t);
    F::lemma_plus(t, tt, tt);
    assert(ut == w);
    lemma_distr(one, t, u);
    lemma_zero(u);
    F::lemma_times(u, t, t);
    assert(uu == u.plus(w));
    F::lemma_plus(t, tt, t);
    F::lemma_plus(tt, t, t);
    lemma_zero(tt);
    F::lemma_plus(tt, t, tt);
    assert(tt == t.plus(w)) by {
        F::lemma_plus(t, t, tt);
        F::lemma_plus(t, tt, t);
        F::lemma_plus(tt, t, t);
    }
    lemma_distr(u, w, p00);
    lemma_distr(t, w, p11);
    // collect the four products with w
    lemma_distr(b0, b1, a0);
    lemma_distr(b0, b1, a1);
    lemma_distr(a0, a1, b0.plus(b1));
    lemma_distr(p00, p01, w);
    lemma_distr(p10, p11, w);
    lemma_distr(p00.plus(p01), p10.plus(p11), w);
    let (up, tp) = (u.times(p00), t.times(p11));
    let (w00, w01, w10, w11) = (w.times(p00), w.times(p01), w.times(p10), w.times(p11));
    // (up + w00 + w01) + (w10 + (tp + w11)) = (up + tp) + ((w00 + w01) + (w10 + w11))
    F::lemma_plus(up, w00, w01);
    F::lemma_plus(w10, tp, w11);
    F::lemma_plus(tp, w10, w11);
    F::lemma_plus(w10, tp, tp);
    F::lemma_plus(tp, w10.plus(w11), tp);
    assert(w10.plus(tp.plus(w11)) == tp.plus(w10.plus(w11)));
    lemma_plus_swap(up, w00.plus(w01), tp, w10.plus(w11));
}

/// The chi value along a line is a parabola.
pub proof fn lemma_chi_line<F: BinaryField>(lo: Seq<F>, hi: Seq<F>, t: F, lane: int, bit: int)
    requires
        0 <= lane < 25,
        0 <= bit < 64,
    ensures
        chi_at(line_block(lo, hi, t), lane, bit) == parabola(
            chi_at(lo, lane, bit),
            chi_at(hi, lane, bit),
            chi_inf_at(lo, hi, lane, bit),
            t,
        ),
{
    let (l1, l2) = (right_of(lane, 1), right_of(lane, 2));
    lemma_pre_chi_line(lo, hi, t, lane, bit);
    lemma_pre_chi_line(lo, hi, t, l1, bit);
    lemma_pre_chi_line(lo, hi, t, l2, bit);
    let (x0, x1) = (pre_chi_at(lo, lane, bit), pre_chi_at(hi, lane, bit));
    let (y0, y1) = (pre_chi_at(lo, l1, bit), pre_chi_at(hi, l1, bit));
    let (z0, z1) = (pre_chi_at(lo, l2, bit), pre_chi_at(hi, l2, bit));
    lemma_line_plus(x0, x1, z0, z1, t);
    lemma_line_product(y0, y1, z0, z1, t);
    let q = t.times(t).plus(t).times(y0.plus(y1).times(z0.plus(z1)));
    let l = crate::verify::shift_laws::line(x0.plus(z0), x1.plus(z1), t);
    let m = crate::verify::shift_laws::line(y0.times(z0), y1.times(z1), t);
    F::lemma_plus(l, m, q);
    lemma_line_plus(x0.plus(z0), x1.plus(z1), y0.times(z0), y1.times(z1), t);
}

/// The round polynomial along a line is a parabola.
pub proof fn lemma_round_line<F: BinaryField>(
    lo: Seq<F>,
    hi: Seq<F>,
    t: F,
    lw: Seq<F>,
    round: int,
    bw: Seq<F>,
)
    ensures
        round_value(line_block(lo, hi, t), lw, round, bw) == parabola(
            round_value(lo, lw, round, bw),
            round_value(hi, lw, round, bw),
            round_inf(lo, hi, lw, bw),
            t,
        ),
{
    let b = line_block(lo, hi, t);
    let u = F::one_of().plus(t);
    let w = t.times(t).plus(t);
    let fb = |lane: int, bit: int| chi_at(b, lane, bit);
    let f0 = |lane: int, bit: int| chi_at(lo, lane, bit);
    let f1 = |lane: int, bit: int| chi_at(hi, lane, bit);
    let fi = |lane: int, bit: int| chi_inf_at(lo, hi, lane, bit);
    let u0 = |lane: int, bit: int| u.times(f0(lane, bit));
    let t1 = |lane: int, bit: int| t.times(f1(lane, bit));
    let wi = |lane: int, bit: int| w.times(fi(lane, bit));
    let ut = |lane: int, bit: int| u0(lane, bit).plus(t1(lane, bit));
    let all = |lane: int, bit: int| ut(lane, bit).plus(wi(lane, bit));
    assert forall|lane: int, bit: int| 0 <= lane < 25 && 0 <= bit < 64 implies #[trigger] fb(
        lane,
        bit,
    ) == all(lane, bit) by {
        lemma_chi_line(lo, hi, t, lane, bit);
    }
    lemma_mixed_ext(fb, all, lw, bw);
    lemma_mixed_plus(ut, wi, lw, bw);
    lemma_mixed_plus(u0, t1, lw, bw);
    lemma_mixed_scale(u, f0, lw, bw);
    lemma_mixed_scale(t, f1, lw, bw);
    lemma_mixed_scale(w, fi, lw, bw);
    // the round constant lies on both ends
    let rc = lw[0].times(fold_word(ROUND_CONSTANTS[round], bw));
    let (m0, m1, mi) = (mixed(f0, lw, bw), mixed(f1, lw, bw), mixed(fi, lw, bw));
    lemma_distr(m0, rc, u);
    lemma_distr(m1, rc, t);
    lemma_plus_swap(u.times(m0), u.times(rc), t.times(m1), t.times(rc));
    lemma_distr(u, t, rc);
    F::lemma_plus(F::one_of(), t, t);
    F::lemma_plus(t, t, t);
    lemma_zero(F::one_of());
    lemma_zero(rc);
    let l = u.times(m0).plus(t.times(m1));
    F::lemma_plus(l, rc, w.times(mi));
    F::lemma_plus(rc, w.times(mi), rc);
    F::lemma_plus(l, w.times(mi), rc);
}

/// The output value along a line is linear.
pub proof fn lemma_output_line<F: BinaryField>(lo: Seq<F>, hi: Seq<F>, t: F, lw: Seq<F>, bw: Seq<F>)
    ensures
        output_value(line_block(lo, hi, t), lw, bw) == crate::verify::shift_laws::line(
            output_value(lo, lw, bw),
            output_value(hi, lw, bw),
            t,
        ),
{
    let b = line_block(lo, hi, t);
    let u = F::one_of().plus(t);
    let fb = |lane: int, bit: int| at(b, lane, bit);
    let f0 = |lane: int, bit: int| at(lo, lane, bit);
    let f1 = |lane: int, bit: int| at(hi, lane, bit);
    let u0 = |lane: int, bit: int| u.times(f0(lane, bit));
    let t1 = |lane: int, bit: int| t.times(f1(lane, bit));
    let all = |lane: int, bit: int| u0(lane, bit).plus(t1(lane, bit));
    assert forall|lane: int, bit: int| 0 <= lane < 25 && 0 <= bit < 64 implies #[trigger] fb(
        lane,
        bit,
    ) == all(lane, bit) by {
        lemma_at_line(lo, hi, t, lane, bit);
    }
    lemma_mixed_ext(fb, all, lw, bw);
    lemma_mixed_plus(u0, t1, lw, bw);
    lemma_mixed_scale(u, f0, lw, bw);
    lemma_mixed_scale(t, f1, lw, bw);
}

} // verus!
