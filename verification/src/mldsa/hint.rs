//! Hints: weight bounds and the canonical packed form.
use super::mldsa44;
use super::params::{lemma_mldsa44, Mldsa44, MldsaParams};
use super::util::{
    assert_true_cond, constant_index, iw, ix, select_indexed_wire_unchecked, unpack_bytes_from_words};
use crate::circuit::word::{add64, byte_of, lemma_mask_and, lemma_mask_not, mask};
use crate::circuit::{lemma_vals_kept, CircuitBuilder, Wire};
use vstd::prelude::*;

verus! {

/// The sum of a list of words, as an integer.
pub open spec fn weight_of(h: Seq<u64>) -> int
    decreases h.len(),
{
    if h.len() == 0 {
        0
    } else {
        weight_of(h.drop_last()) + h.last()
    }
}

/// Whether every word is a bit.
pub open spec fn all_bits(h: Seq<u64>) -> bool {
    forall|i: int| 0 <= i < h.len() ==> #[trigger] h[i] <= 1
}

/// Whether every word is a bit and at most `omega` are set.
pub open spec fn hint_weight_ok(h: Seq<u64>, omega: int) -> bool {
    all_bits(h) && weight_of(h) <= omega
}

pub(crate) proof fn lemma_weight_bits(h: Seq<u64>)
    requires
        all_bits(h),
    ensures
        0 <= weight_of(h) <= h.len(),
    decreases h.len(),
{
    if h.len() > 0 {
        assert(all_bits(h.drop_last())) by {
            assert forall|i: int| 0 <= i < h.len() - 1 implies #[trigger] h.drop_last()[i] <= 1 by {
                assert(h[i] <= 1);
            }
        }
        lemma_weight_bits(h.drop_last());
        assert(h[h.len() - 1] <= 1);
    }
}

/// Asserts that every `h_i` is a bit and that at most `omega` are set.
pub fn assert_h_bits_and_weight_for<P: MldsaParams>(builder: &mut CircuitBuilder, h_coeffs: &[Wire])
    requires
        old(builder).wf(),
        old(builder).has_all(h_coeffs@),
        h_coeffs@.len() == P::W1_COEFFICIENTS,
    ensures
        final(builder).extends(*old(builder)),
        forall|w: Seq<u64>|
            #[trigger] final(builder).accepts(w) == (old(builder).accepts(w) && hint_weight_ok(
                old(builder).vals(w, h_coeffs@),
                iw(P::OMEGA),
            )),
{
    let ghost b0 = *builder;
    let ghost hs = h_coeffs@;
    let one = builder.add_constant_64(1);
    let mut h_weight = builder.add_constant_64(0);
    let n: usize = h_coeffs.len();
    proof {
        assert forall|w: Seq<u64>|
            #![trigger b0.vals(w, hs).take(0)]
            all_bits(b0.vals(w, hs).take(0)) && weight_of(b0.vals(w, hs).take(0)) == 0 by {}
    }
    for i in 0..n
        invariant
            b0.wf(),
            b0.has_all(hs),
            hs == h_coeffs@,
            n == hs.len(),
            builder.extends(b0),
            builder.has(one),
            builder.has(h_weight),
            forall|w: Seq<u64>| #[trigger] builder.val(w, one) == 1,
            forall|w: Seq<u64>|
                #[trigger] builder.accepts(w) == (b0.accepts(w) && all_bits(
                    b0.vals(w, hs).take(ix(i)),
                )),
            forall|w: Seq<u64>|
                #![trigger builder.val(w, h_weight)]
                all_bits(b0.vals(w, hs).take(ix(i))) ==> builder.val(w, h_weight) == weight_of(
                    b0.vals(w, hs).take(ix(i)),
                ),
    {
        let ghost bi = *builder;
        assert(b0.has(hs[ix(i)]));
        let h = h_coeffs[i];
        let is_bit = builder.icmp_ule(h, one);
        builder.assert_true(is_bit);
        let ghost bb = *builder;
        let (next_weight, _carry) = builder.iadd(h_weight, h);
        let monotone = builder.icmp_ule(h_weight, next_weight);
        builder.assert_true(monotone);
        proof {
            assert forall|w: Seq<u64>|
                #![trigger builder.accepts(w)]
                #![trigger builder.val(w, next_weight)]
                builder.accepts(w) == (b0.accepts(w) && all_bits(b0.vals(w, hs).take(i + 1))) && (
                all_bits(b0.vals(w, hs).take(i + 1)) ==> builder.val(w, next_weight) == weight_of(
                    b0.vals(w, hs).take(i + 1),
                )) by {
                let v = b0.vals(w, hs);
                let (a, b) = (v.take(ix(i)), v.take(i + 1));
                assert(b.drop_last() =~= a);
                assert(b.last() == v[ix(i)]);
                assert(bi.val(w, h) == v[ix(i)]);
                assert(bb.val(w, h_weight) == bi.val(w, h_weight));
                assert(all_bits(b) == (all_bits(a) && v[ix(i)] <= 1)) by {
                    if all_bits(b) {
                        assert forall|k: int| 0 <= k < a.len() implies #[trigger] a[k] <= 1 by {
                            assert(b[k] <= 1);
                        }
                        assert(b[ix(i)] <= 1);
                    }
                    if all_bits(a) && v[ix(i)] <= 1 {
                        assert forall|k: int| 0 <= k < b.len() implies #[trigger] b[k] <= 1 by {
                            if k < i {
                                assert(a[k] <= 1);
                            }
                        }
                    }
                }
                if all_bits(b) {
                    lemma_weight_bits(a);
                }
            }
        }
        h_weight = next_weight;
    }
    let ghost bl = *builder;
    let omega = builder.add_constant_64(P::OMEGA);
    let within = builder.icmp_ule(h_weight, omega);
    builder.assert_true(within);
    proof {
        assert forall|w: Seq<u64>| #[trigger] builder.accepts(w) == (b0.accepts(w)
            && hint_weight_ok(b0.vals(w, hs), iw(P::OMEGA))) by {
            assert(b0.vals(w, hs).take(ix(n)) =~= b0.vals(w, hs));
            assert(bl.val(w, h_weight) == bl.val(w, h_weight));
        }
    }
}

/// Asserts that every `h_i` is a bit and that at most `omega` are set, for ML-DSA-44.
pub fn assert_mldsa44_h_bits_and_weight(builder: &mut CircuitBuilder, h_coeffs: &[Wire])
    requires
        old(builder).wf(),
        old(builder).has_all(h_coeffs@),
        h_coeffs@.len() == 1024,
    ensures
        final(builder).extends(*old(builder)),
        forall|w: Seq<u64>|
            #[trigger] final(builder).accepts(w) == (old(builder).accepts(w) && hint_weight_ok(
                old(builder).vals(w, h_coeffs@),
                80,
            )),
{
    proof {
        lemma_mldsa44();
    }
    assert_h_bits_and_weight_for::<Mldsa44>(builder, h_coeffs);
}

/// The bytes of the packed hint.
pub open spec fn packed_bytes(words: Seq<u64>, n: int) -> Seq<u64> {
    Seq::new(n as nat, |i: int| byte_of(words[i / 8], i % 8))
}

/// The endpoint of segment `j`: the number of positions in the segments up to `j`.
pub open spec fn endpoint(b: Seq<u64>, omega: int, j: int) -> int {
    b[omega + j] as int
}

/// The first position index of segment `j`.
pub open spec fn segment_start(b: Seq<u64>, omega: int, j: int) -> int {
    if j == 0 {
        0
    } else {
        b[omega + j - 1] as int
    }
}

/// Whether position index `p` lies in segment `j`.
pub open spec fn in_segment(b: Seq<u64>, omega: int, j: int, p: int) -> bool {
    segment_start(b, omega, j) <= p < endpoint(b, omega, j)
}

/// Whether the endpoint of segment `j` is no less than the one before and at most `omega`.
pub open spec fn endpoint_ok(b: Seq<u64>, omega: int, j: int) -> bool {
    segment_start(b, omega, j) <= endpoint(b, omega, j) <= omega
}

/// Whether the first `m` endpoints are monotone and at most `omega`.
pub open spec fn endpoints_ok(b: Seq<u64>, omega: int, m: int) -> bool {
    forall|j: int| 0 <= j < m ==> #[trigger] endpoint_ok(b, omega, j)
}

/// Whether position `p` is a coefficient index where it is used, and zero where it is not.
pub open spec fn position_ok(b: Seq<u64>, n: int, k: int, omega: int, p: int) -> bool {
    if p < endpoint(b, omega, k - 1) {
        b[p] < n
    } else {
        b[p] == 0
    }
}

/// Whether the first `m` positions are as they should be.
pub open spec fn positions_ok(b: Seq<u64>, n: int, k: int, omega: int, m: int) -> bool {
    forall|p: int| 0 <= p < m ==> #[trigger] position_ok(b, n, k, omega, p)
}

/// Whether position `p` exceeds the one before it in segment `j`, where there is one.
pub open spec fn order_ok_at(b: Seq<u64>, omega: int, j: int, p: int) -> bool {
    in_segment(b, omega, j, p) && segment_start(b, omega, j) < p ==> b[p - 1] < b[p]
}

/// Whether the first `m` positions are in order where they lie in segment `j`.
pub open spec fn segment_order_ok(b: Seq<u64>, omega: int, j: int, m: int) -> bool {
    forall|p: int| 0 <= p < m ==> #[trigger] order_ok_at(b, omega, j, p)
}

/// Whether the positions of the first `m` segments are strictly increasing.
pub open spec fn order_ok(b: Seq<u64>, omega: int, m: int) -> bool {
    forall|j: int| 0 <= j < m ==> #[trigger] segment_order_ok(b, omega, j, omega)
}

/// Whether a packed hint is canonical: endpoints are monotone and at most `omega`, positions are
/// strictly increasing inside each segment and below `n`, and unused positions are zero.
pub open spec fn hint_canonical(b: Seq<u64>, n: int, k: int, omega: int) -> bool {
    &&& endpoints_ok(b, omega, k)
    &&& positions_ok(b, n, k, omega, omega)
    &&& order_ok(b, omega, k)
}

/// Whether one of the first `m` positions sets coefficient `c` of polynomial `j`.
pub open spec fn sets_coeff(b: Seq<u64>, omega: int, j: int, c: int, m: int) -> bool {
    exists|p: int| 0 <= p < m && in_segment(b, omega, j, p) && #[trigger] b[p] == c
}

/// The coefficient `c` of the hint polynomial `j`.
pub open spec fn hint_coeff(b: Seq<u64>, omega: int, j: int, c: int) -> u64 {
    if sets_coeff(b, omega, j, c, omega) {
        1
    } else {
        0
    }
}

/// The expanded hint, polynomial after polynomial.
pub open spec fn expanded_hint(b: Seq<u64>, n: int, k: int, omega: int) -> Seq<u64> {
    Seq::new((k * n) as nat, |i: int| hint_coeff(b, omega, i / n, i % n))
}

/// The endpoints of the segments and their first position indices. Asserts that the endpoints are
/// monotone and at most `omega`.
fn hint_segments<P: MldsaParams>(builder: &mut CircuitBuilder, h_bytes: &[Wire]) -> (r: (
    Vec<Wire>,
    Vec<Wire>,
))
    requires
        old(builder).wf(),
        old(builder).has_all(h_bytes@),
        h_bytes@.len() == P::HINT_BYTES,
    ensures
        final(builder).extends(*old(builder)),
        final(builder).has_all(r.0@),
        final(builder).has_all(r.1@),
        r.0@.len() == P::K,
        r.1@.len() == P::K,
        forall|j: int|
            0 <= j < P::K ==> (#[trigger] r.1@[j]) == h_bytes@[P::OMEGA_USIZE + j] && (j > 0
                ==> r.0@[j] == h_bytes@[P::OMEGA_USIZE + j - 1]),
        forall|w: Seq<u64>| #[trigger] final(builder).val(w, r.0@[0]) == 0,
        forall|w: Seq<u64>|
            #[trigger] final(builder).accepts(w) == (old(builder).accepts(w) && endpoints_ok(
                old(builder).vals(w, h_bytes@),
                ix(P::OMEGA_USIZE),
                ix(P::K),
            )),
{
    let ghost b0 = *builder;
    proof {
        P::lemma_params();
    }
    let zero = builder.add_constant_64(0);
    let omega = builder.add_constant_64(P::OMEGA);
    let ghost bz = *builder;
    let mut starts: Vec<Wire> = Vec::new();
    let mut endpoints: Vec<Wire> = Vec::new();
    let mut prev_endpoint = zero;
    for j in 0..P::K
        invariant
            b0.wf(),
            b0.has_all(h_bytes@),
            h_bytes@.len() == P::HINT_BYTES,
            P::HINT_BYTES == P::OMEGA_USIZE + P::K,
            P::OMEGA_USIZE == P::OMEGA,
            P::OMEGA < 256,
            bz.extends(b0),
            bz.has(zero),
            bz.has(omega),
            forall|w: Seq<u64>| #[trigger] bz.val(w, zero) == 0,
            forall|w: Seq<u64>| #[trigger] bz.val(w, omega) == P::OMEGA,
            builder.extends(bz),
            builder.has_all(starts@),
            builder.has_all(endpoints@),
            starts@.len() == j,
            endpoints@.len() == j,
            j == 0 ==> prev_endpoint == zero,
            j > 0 ==> prev_endpoint == h_bytes@[P::OMEGA_USIZE + j - 1],
            j > 0 ==> starts@[0] == zero,
            forall|i: int|
                0 <= i < j ==> (#[trigger] endpoints@[i]) == h_bytes@[P::OMEGA_USIZE + i],
            forall|i: int|
                0 < i < j ==> (#[trigger] starts@[i]) == h_bytes@[P::OMEGA_USIZE + i - 1],
            forall|w: Seq<u64>|
                #[trigger] builder.accepts(w) == (b0.accepts(w) && endpoints_ok(
                    b0.vals(w, h_bytes@),
                    ix(P::OMEGA_USIZE),
                    ix(j),
                )),
    {
        let ghost bi = *builder;
        let endpoint = h_bytes[P::OMEGA_USIZE + j];
        assert(b0.has(h_bytes@[P::OMEGA_USIZE + j]));
        assert(j > 0 ==> b0.has(h_bytes@[P::OMEGA_USIZE + j - 1]));
        let monotone = builder.icmp_ule(prev_endpoint, endpoint);
        builder.assert_true(monotone);
        let bounded = builder.icmp_ule(endpoint, omega);
        builder.assert_true(bounded);
        proof {
            assert forall|w: Seq<u64>| #[trigger] builder.accepts(w) == (b0.accepts(w)
                && endpoints_ok(b0.vals(w, h_bytes@), ix(P::OMEGA_USIZE), j + 1)) by {
                let b = b0.vals(w, h_bytes@);
                let o = ix(P::OMEGA_USIZE);
                assert(bz.val(w, omega) == P::OMEGA);
                assert(bz.val(w, zero) == 0);
                assert(bi.val(w, endpoint) == b[o + j]);
                assert(bi.val(w, prev_endpoint) == segment_start(b, o, ix(j)));
                assert(endpoints_ok(b, o, j + 1) == (endpoints_ok(b, o, ix(j)) && endpoint_ok(
                    b,
                    o,
                    ix(j),
                )));
            }
        }
        starts.push(prev_endpoint);
        endpoints.push(endpoint);
        prev_endpoint = endpoint;
    }
    (starts, endpoints)
}

/// Asserts that used positions are coefficient indices and that unused positions are zero.
fn assert_hint_positions<P: MldsaParams>(
    builder: &mut CircuitBuilder,
    h_bytes: &[Wire],
    last_endpoint: Wire,
)
    requires
        old(builder).wf(),
        old(builder).has_all(h_bytes@),
        old(builder).has(last_endpoint),
        h_bytes@.len() == P::HINT_BYTES,
        last_endpoint == h_bytes@[P::HINT_BYTES - 1],
    ensures
        final(builder).extends(*old(builder)),
        forall|w: Seq<u64>|
            #[trigger] final(builder).accepts(w) == (old(builder).accepts(w) && positions_ok(
                old(builder).vals(w, h_bytes@),
                ix(P::N),
                ix(P::K),
                ix(P::OMEGA_USIZE),
                ix(P::OMEGA_USIZE),
            )),
{
    let ghost b0 = *builder;
    proof {
        P::lemma_params();
    }
    let zero = builder.add_constant_64(0);
    let poly_n = constant_index(builder, P::N);
    let ghost bz = *builder;
    for p in 0..P::OMEGA_USIZE
        invariant
            b0.wf(),
            b0.has_all(h_bytes@),
            b0.has(last_endpoint),
            h_bytes@.len() == P::HINT_BYTES,
            last_endpoint == h_bytes@[P::HINT_BYTES - 1],
            P::HINT_BYTES == P::OMEGA_USIZE + P::K,
            P::K > 0,
            bz.extends(b0),
            bz.has(zero),
            bz.has(poly_n),
            forall|w: Seq<u64>| #[trigger] bz.val(w, zero) == 0,
            forall|w: Seq<u64>| #[trigger] bz.val(w, poly_n) == P::N,
            builder.extends(bz),
            forall|w: Seq<u64>|
                #[trigger] builder.accepts(w) == (b0.accepts(w) && positions_ok(
                    b0.vals(w, h_bytes@),
                    ix(P::N),
                    ix(P::K),
                    ix(P::OMEGA_USIZE),
                    ix(p),
                )),
    {
        let ghost bi = *builder;
        assert(b0.has(h_bytes@[ix(p)]));
        let pos_idx_wire = constant_index(builder, p);
        let used = builder.icmp_ult(pos_idx_wire, last_endpoint);
        let is_zero = builder.icmp_eq(h_bytes[p], zero);
        let unused = builder.bnot(used);
        let ghost b1 = *builder;
        assert_true_cond(builder, is_zero, unused);
        let in_range = builder.icmp_ult(h_bytes[p], poly_n);
        let ghost b2 = *builder;
        assert_true_cond(builder, in_range, used);
        proof {
            assert forall|w: Seq<u64>| #[trigger] builder.accepts(w) == (b0.accepts(w)
                && positions_ok(
                b0.vals(w, h_bytes@),
                ix(P::N),
                ix(P::K),
                ix(P::OMEGA_USIZE),
                p + 1,
            )) by {
                let b = b0.vals(w, h_bytes@);
                let (n, k, o) = (ix(P::N), ix(P::K), ix(P::OMEGA_USIZE));
                assert(bz.val(w, zero) == 0);
                assert(bz.val(w, poly_n) == P::N);
                assert(bi.val(w, h_bytes@[ix(p)]) == b[ix(p)]);
                assert(bi.val(w, last_endpoint) == b[o + k - 1]);
                assert(b1.val(w, used) == mask(p < b[o + k - 1]));
                assert(b2.val(w, used) == b1.val(w, used));
                assert(b2.val(w, in_range) == mask(b[ix(p)] < P::N));
                assert(b1.val(w, is_zero) == mask(b[ix(p)] == 0));
                lemma_mask_not(p < b[o + k - 1]);
                assert(b1.val(w, unused) == mask(!(p < b[o + k - 1])));
                assert(b2.accepts(w) == (bi.accepts(w) && (p >= b[o + k - 1] ==> b[ix(p)] == 0)));
                assert(builder.accepts(w) == (b2.accepts(w) && (p < b[o + k - 1] ==> b[ix(p)]
                    < P::N)));
                assert(positions_ok(b, n, k, o, p + 1) == (positions_ok(b, n, k, o, ix(p))
                    && position_ok(b, n, k, o, ix(p))));
            }
        }
    }
}

/// Whether position index `p` lies between `start` and `end`.
fn segment_membership(builder: &mut CircuitBuilder, start: Wire, end: Wire, p: usize) -> (r: Wire)
    requires
        old(builder).wf(),
        old(builder).has(start),
        old(builder).has(end),
    ensures
        final(builder).computes_on(*old(builder)),
        final(builder).has(r),
        forall|w: Seq<u64>|
            #[trigger] final(builder).val(w, r) == mask(
                old(builder).val(w, start) <= p < old(builder).val(w, end),
            ),
{
    broadcast use lemma_mask_and;

    let pos_idx_wire = constant_index(builder, p);
    let after_start = builder.icmp_ule(start, pos_idx_wire);
    let before_end = builder.icmp_ult(pos_idx_wire, end);
    builder.band(after_start, before_end)
}

/// Asserts that position `p` exceeds the one before it in the segment from `start` to `end`, which
/// is segment `j`. Gives back whether `p` lies in it.
fn assert_position_order<P: MldsaParams>(
    builder: &mut CircuitBuilder,
    h_bytes: &[Wire],
    start: Wire,
    end: Wire,
    j: usize,
    p: usize,
) -> (in_seg: Wire)
    requires
        old(builder).wf(),
        old(builder).has_all(h_bytes@),
        old(builder).has(start),
        old(builder).has(end),
        h_bytes@.len() == P::HINT_BYTES,
        j < P::K,
        p < P::OMEGA_USIZE,
        forall|w: Seq<u64>|
            #[trigger] old(builder).val(w, start) == segment_start(
                old(builder).vals(w, h_bytes@),
                ix(P::OMEGA_USIZE),
                ix(j),
            ),
        end == h_bytes@[P::OMEGA_USIZE + j],
    ensures
        final(builder).extends(*old(builder)),
        final(builder).has(in_seg),
        forall|w: Seq<u64>|
            #[trigger] final(builder).val(w, in_seg) == mask(
                in_segment(
                    old(builder).vals(w, h_bytes@),
                    ix(P::OMEGA_USIZE),
                    ix(j),
                    ix(p),
                ),
            ),
        forall|w: Seq<u64>|
            #[trigger] final(builder).accepts(w) == (old(builder).accepts(w) && order_ok_at(
                old(builder).vals(w, h_bytes@),
                ix(P::OMEGA_USIZE),
                ix(j),
                ix(p),
            )),
{
    broadcast use lemma_mask_and;

    let ghost b0 = *builder;
    proof {
        P::lemma_params();
    }
    let prev: usize = if p > 0 {
        p - 1
    } else {
        p
    };
    assert(b0.has(h_bytes@[ix(prev)]));
    assert(b0.has(h_bytes@[ix(p)]));
    assert(b0.has(h_bytes@[P::OMEGA_USIZE + j]));
    let in_seg = segment_membership(builder, start, end, p);
    let pos_idx_wire = constant_index(builder, p);
    let has_previous = builder.icmp_ult(start, pos_idx_wire);
    let needs_order_check = builder.band(in_seg, has_previous);
    let increasing = builder.icmp_ult(h_bytes[prev], h_bytes[p]);
    let ghost b1 = *builder;
    assert_true_cond(builder, increasing, needs_order_check);
    proof {
        assert forall|w: Seq<u64>|
            #![trigger builder.accepts(w)]
            #![trigger builder.val(w, in_seg)]
            builder.val(w, in_seg) == mask(
                in_segment(b0.vals(w, h_bytes@), ix(P::OMEGA_USIZE), ix(j), ix(p)),
            ) && builder.accepts(w) == (b0.accepts(w) && order_ok_at(
                b0.vals(w, h_bytes@),
                ix(P::OMEGA_USIZE),
                ix(j),
                ix(p),
            )) by {
            let b = b0.vals(w, h_bytes@);
            let o = ix(P::OMEGA_USIZE);
            assert(b0.val(w, start) == segment_start(b, o, ix(j)));
            assert(b0.val(w, end) == endpoint(b, o, ix(j)));
            assert(b1.val(w, in_seg) == mask(in_segment(b, o, ix(j), ix(p))));
            assert(b1.val(w, needs_order_check) == mask(
                in_segment(b, o, ix(j), ix(p)) && segment_start(b, o, ix(j)) < p,
            ));
            assert(b1.val(w, increasing) == mask(b[ix(prev)] < b[ix(p)]));
        }
    }
    in_seg
}

/// Asserts that the positions of segment `j`, which runs from `start` to `end`, are strictly
/// increasing.
fn assert_segment_order<P: MldsaParams>(
    builder: &mut CircuitBuilder,
    h_bytes: &[Wire],
    start: Wire,
    end: Wire,
    j: usize,
)
    requires
        old(builder).wf(),
        old(builder).has_all(h_bytes@),
        old(builder).has(start),
        old(builder).has(end),
        h_bytes@.len() == P::HINT_BYTES,
        j < P::K,
        forall|w: Seq<u64>|
            #[trigger] old(builder).val(w, start) == segment_start(
                old(builder).vals(w, h_bytes@),
                ix(P::OMEGA_USIZE),
                ix(j),
            ),
        end == h_bytes@[P::OMEGA_USIZE + j],
    ensures
        final(builder).extends(*old(builder)),
        forall|w: Seq<u64>|
            #[trigger] final(builder).accepts(w) == (old(builder).accepts(w) && segment_order_ok(
                old(builder).vals(w, h_bytes@),
                ix(P::OMEGA_USIZE),
                ix(j),
                ix(P::OMEGA_USIZE),
            )),
{
    let ghost b0 = *builder;
    for p in 0..P::OMEGA_USIZE
        invariant
            b0.wf(),
            b0.has_all(h_bytes@),
            b0.has(start),
            b0.has(end),
            h_bytes@.len() == P::HINT_BYTES,
            j < P::K,
            forall|w: Seq<u64>|
                #[trigger] b0.val(w, start) == segment_start(
                    b0.vals(w, h_bytes@),
                    ix(P::OMEGA_USIZE),
                    ix(j),
                ),
            end == h_bytes@[P::OMEGA_USIZE + j],
            builder.extends(b0),
            forall|w: Seq<u64>|
                #[trigger] builder.accepts(w) == (b0.accepts(w) && segment_order_ok(
                    b0.vals(w, h_bytes@),
                    ix(P::OMEGA_USIZE),
                    ix(j),
                    ix(p),
                )),
    {
        let ghost bi = *builder;
        proof {
            lemma_vals_kept(bi, b0, h_bytes@);
            assert forall|w: Seq<u64>| #[trigger] bi.val(w, start) == segment_start(
                bi.vals(w, h_bytes@),
                ix(P::OMEGA_USIZE),
                ix(j),
            ) by {
                assert(bi.val(w, start) == b0.val(w, start));
            }
        }
        let _in_seg = assert_position_order::<P>(builder, h_bytes, start, end, j, p);
        proof {
            assert forall|w: Seq<u64>| #[trigger] builder.accepts(w) == (b0.accepts(w)
                && segment_order_ok(b0.vals(w, h_bytes@), ix(P::OMEGA_USIZE), ix(j), p + 1)) by {
                let b = b0.vals(w, h_bytes@);
                let o = ix(P::OMEGA_USIZE);
                assert(bi.vals(w, h_bytes@) == b);
                assert(segment_order_ok(b, o, ix(j), p + 1) == (segment_order_ok(b, o, ix(j), ix(p))
                    && order_ok_at(b, o, ix(j), ix(p))));
            }
        }
    }
}

/// Coefficient `c` of the hint polynomial whose segment runs from `start` to `end`.
fn decode_hint_coeff<P: MldsaParams>(
    builder: &mut CircuitBuilder,
    h_bytes: &[Wire],
    start: Wire,
    end: Wire,
    j: usize,
    c: usize,
) -> (r: Wire)
    requires
        old(builder).wf(),
        old(builder).has_all(h_bytes@),
        old(builder).has(start),
        old(builder).has(end),
        h_bytes@.len() == P::HINT_BYTES,
        j < P::K,
        forall|w: Seq<u64>|
            #[trigger] old(builder).val(w, start) == segment_start(
                old(builder).vals(w, h_bytes@),
                ix(P::OMEGA_USIZE),
                ix(j),
            ),
        end == h_bytes@[P::OMEGA_USIZE + j],
    ensures
        final(builder).computes_on(*old(builder)),
        final(builder).has(r),
        forall|w: Seq<u64>|
            #[trigger] final(builder).val(w, r) == hint_coeff(
                old(builder).vals(w, h_bytes@),
                ix(P::OMEGA_USIZE),
                ix(j),
                ix(c),
            ),
{
    let ghost b0 = *builder;
    proof {
        P::lemma_params();
    }
    let one = builder.add_constant_64(1);
    let coeff_idx_wire = constant_index(builder, c);
    let mut coeff = builder.add_constant_64(0);
    let ghost bz = *builder;
    for p in 0..P::OMEGA_USIZE
        invariant
            b0.wf(),
            b0.has_all(h_bytes@),
            b0.has(start),
            b0.has(end),
            h_bytes@.len() == P::HINT_BYTES,
            P::HINT_BYTES == P::OMEGA_USIZE + P::K,
            j < P::K,
            forall|w: Seq<u64>|
                #[trigger] b0.val(w, start) == segment_start(
                    b0.vals(w, h_bytes@),
                    ix(P::OMEGA_USIZE),
                    ix(j),
                ),
            end == h_bytes@[P::OMEGA_USIZE + j],
            bz.computes_on(b0),
            bz.has(one),
            bz.has(coeff_idx_wire),
            forall|w: Seq<u64>| #[trigger] bz.val(w, one) == 1,
            forall|w: Seq<u64>| #[trigger] bz.val(w, coeff_idx_wire) == c,
            builder.computes_on(bz),
            builder.has(coeff),
            forall|w: Seq<u64>|
                #[trigger] builder.val(w, coeff) == (if sets_coeff(
                    b0.vals(w, h_bytes@),
                    ix(P::OMEGA_USIZE),
                    ix(j),
                    ix(c),
                    ix(p),
                ) {
                    1u64
                } else {
                    0u64
                }),
    {
        let ghost bi = *builder;
        let ghost prev = coeff;
        assert(b0.has(h_bytes@[ix(p)]));
        let in_seg = segment_membership(builder, start, end, p);
        let position_matches = builder.icmp_eq(h_bytes[p], coeff_idx_wire);
        let is_set = builder.band(in_seg, position_matches);
        let ghost b1 = *builder;
        coeff = builder.select(is_set, one, coeff);
        proof {
            assert forall|w: Seq<u64>| #[trigger] builder.val(w, coeff) == (if sets_coeff(
                b0.vals(w, h_bytes@),
                ix(P::OMEGA_USIZE),
                ix(j),
                ix(c),
                p + 1,
            ) {
                1u64
            } else {
                0u64
            }) by {
                let b = b0.vals(w, h_bytes@);
                let o = ix(P::OMEGA_USIZE);
                assert(bi.val(w, start) == b0.val(w, start));
                assert(bi.val(w, end) == endpoint(b, o, ix(j)));
                assert(bz.val(w, coeff_idx_wire) == c);
                assert(bz.val(w, one) == 1);
                let here = in_segment(b, o, ix(j), ix(p));
                lemma_mask_and(here, b[ix(p)] == c);
                assert(b1.val(w, is_set) == mask(here && b[ix(p)] == c));
                assert(bi.val(w, prev) == b1.val(w, prev));
                if here && b[ix(p)] == c {
                    assert(sets_coeff(b, o, ix(j), ix(c), p + 1));
                } else {
                    if sets_coeff(b, o, ix(j), ix(c), p + 1) {
                        let q = choose|q: int|
                            0 <= q < p + 1 && in_segment(b, o, ix(j), q) && #[trigger] b[q] == c;
                        assert(q < p);
                        assert(sets_coeff(b, o, ix(j), ix(c), ix(p)));
                    }
                    if sets_coeff(b, o, ix(j), ix(c), ix(p)) {
                        let q = choose|q: int|
                            0 <= q < p && in_segment(b, o, ix(j), q) && #[trigger] b[q] == c;
                        assert(sets_coeff(b, o, ix(j), ix(c), p + 1));
                    }
                }
            }
        }
    }
    coeff
}

/// Whether `start` carries the first position index of segment `j`, for every assignment.
spec fn starts_at(
    builder: CircuitBuilder,
    h_bytes: Seq<Wire>,
    omega: int,
    start: Wire,
    j: int,
) -> bool {
    &&& builder.has(start)
    &&& forall|w: Seq<u64>|
        #[trigger] builder.val(w, start) == segment_start(builder.vals(w, h_bytes), omega, j)
}

proof fn lemma_starts_at_kept(
    post: CircuitBuilder,
    pre: CircuitBuilder,
    h_bytes: Seq<Wire>,
    omega: int,
    start: Wire,
    j: int,
)
    requires
        post.extends(pre),
        pre.has_all(h_bytes),
        starts_at(pre, h_bytes, omega, start, j),
    ensures
        starts_at(post, h_bytes, omega, start, j),
{
    lemma_vals_kept(post, pre, h_bytes);
    assert forall|w: Seq<u64>| #[trigger] post.val(w, start) == segment_start(
        post.vals(w, h_bytes),
        omega,
        j,
    ) by {
        assert(post.val(w, start) == pre.val(w, start));
    }
}

/// The segments of a packed hint. Asserts what the canonical form asks of endpoints and positions,
/// but for the order inside segments.
fn hint_layout<P: MldsaParams>(builder: &mut CircuitBuilder, h_bytes: &[Wire]) -> (r: (
    Vec<Wire>,
    Vec<Wire>,
))
    requires
        old(builder).wf(),
        old(builder).has_all(h_bytes@),
        h_bytes@.len() == P::HINT_BYTES,
    ensures
        final(builder).extends(*old(builder)),
        r.0@.len() == P::K,
        r.1@.len() == P::K,
        forall|j: int|
            #![trigger r.0@[j]]
            0 <= j < P::K ==> starts_at(
                *final(builder),
                h_bytes@,
                ix(P::OMEGA_USIZE),
                r.0@[j],
                j,
            ),
        forall|j: int|
            0 <= j < P::K ==> (#[trigger] r.1@[j]) == h_bytes@[P::OMEGA_USIZE + j],
        forall|w: Seq<u64>|
            #[trigger] final(builder).accepts(w) == (old(builder).accepts(w) && endpoints_ok(
                old(builder).vals(w, h_bytes@),
                ix(P::OMEGA_USIZE),
                ix(P::K),
            ) && positions_ok(
                old(builder).vals(w, h_bytes@),
                ix(P::N),
                ix(P::K),
                ix(P::OMEGA_USIZE),
                ix(P::OMEGA_USIZE),
            )),
{
    let ghost b0 = *builder;
    proof {
        P::lemma_params();
    }
    let (starts, endpoints) = hint_segments::<P>(builder, h_bytes);
    let ghost b1 = *builder;
    let k: usize = P::K;
    proof {
        lemma_vals_kept(b1, b0, h_bytes@);
        assert(b1.has(endpoints@[k - 1]));
    }
    let last_endpoint = endpoints[k - 1];
    assert_hint_positions::<P>(builder, h_bytes, last_endpoint);
    proof {
        assert forall|j: int|
            #![trigger starts@[j]]
            0 <= j < P::K implies starts_at(
            *builder,
            h_bytes@,
            ix(P::OMEGA_USIZE),
            starts@[j],
            j,
        ) by {
            assert(b1.has(starts@[j]));
            assert(endpoints@[j] == h_bytes@[P::OMEGA_USIZE + j]);
            assert forall|w: Seq<u64>| #[trigger] b1.val(w, starts@[j]) == segment_start(
                b1.vals(w, h_bytes@),
                ix(P::OMEGA_USIZE),
                j,
            ) by {
                if j == 0 {
                    assert(b1.val(w, starts@[0]) == 0);
                } else {
                    assert(b1.vals(w, h_bytes@)[P::OMEGA_USIZE + j - 1] == b1.val(
                        w,
                        h_bytes@[P::OMEGA_USIZE + j - 1],
                    ));
                }
            }
            lemma_starts_at_kept(*builder, b1, h_bytes@, ix(P::OMEGA_USIZE), starts@[j], j);
        }
    }
    (starts, endpoints)
}

pub(crate) proof fn lemma_flat_index(j: int, k: int, c: int, n: int)
    requires
        0 <= j < k,
        0 <= c < n,
    ensures
        0 <= j * n + c < k * n,
        (j * n + c) / n == j,
        (j * n + c) % n == c,
        (j + 1) * n == j * n + n,
        (j + 1) * n <= k * n,
{
    vstd::arithmetic::div_mod::lemma_fundamental_div_mod_converse(j * n + c, n, j, c);
    assert((j + 1) * n == j * n + n) by (nonlinear_arith);
    assert((j + 1) * n <= k * n) by (nonlinear_arith)
        requires
            j + 1 <= k,
            n > 0,
    ;
    assert(0 <= j * n) by (nonlinear_arith)
        requires
            0 <= j,
            0 < n,
    ;
}

/// Canonically decodes the packed hint into expanded hint bits.
///
/// The encoding stores up to `omega` position bytes followed by `k` endpoint bytes. The circuit
/// accepts exactly the canonical encodings.
#[verifier::spinoff_prover]
#[verifier::rlimit(40)]
pub fn decode_hint_canonical_for<P: MldsaParams>(
    builder: &mut CircuitBuilder,
    h_words: &[Wire],
) -> (h_coeffs: Vec<Wire>)
    requires
        old(builder).wf(),
        old(builder).has_all(h_words@),
        h_words@.len() == (P::HINT_BYTES + 7) / 8,
    ensures
        final(builder).extends(*old(builder)),
        final(builder).has_all(h_coeffs@),
        h_coeffs@.len() == P::W1_COEFFICIENTS,
        forall|w: Seq<u64>|
            #[trigger] final(builder).accepts(w) == (old(builder).accepts(w) && hint_canonical(
                packed_bytes(old(builder).vals(w, h_words@), ix(P::HINT_BYTES)),
                ix(P::N),
                ix(P::K),
                ix(P::OMEGA_USIZE),
            )),
        forall|w: Seq<u64>|
            #[trigger] final(builder).vals(w, h_coeffs@) == expanded_hint(
                packed_bytes(old(builder).vals(w, h_words@), ix(P::HINT_BYTES)),
                ix(P::N),
                ix(P::K),
                ix(P::OMEGA_USIZE),
            ),
{
    let ghost b0 = *builder;
    let ghost (n, k, o) = (ix(P::N), ix(P::K), ix(P::OMEGA_USIZE));
    proof {
        P::lemma_params();
    }
    let h_bytes = unpack_bytes_from_words(builder, h_words, P::HINT_BYTES);
    let ghost b1 = *builder;
    proof {
        assert forall|w: Seq<u64>| #[trigger] b1.vals(w, h_bytes@) == packed_bytes(
            b0.vals(w, h_words@),
            ix(P::HINT_BYTES),
        ) by {
            assert(b1.vals(w, h_bytes@) =~= packed_bytes(
                b0.vals(w, h_words@),
                ix(P::HINT_BYTES),
            )) by {
                assert forall|i: int| 0 <= i < P::HINT_BYTES implies #[trigger] b1.vals(
                    w,
                    h_bytes@,
                )[i] == packed_bytes(b0.vals(w, h_words@), ix(P::HINT_BYTES))[i] by {
                    assert(b1.val(w, h_bytes@[i]) == byte_of(b0.val(w, h_words@[i / 8]), i % 8));
                }
            }
        }
    }
    let (starts, endpoints) = hint_layout::<P>(builder, h_bytes.as_slice());
    let ghost b2 = *builder;
    proof {
        lemma_vals_kept(b2, b1, h_bytes@);
    }
    for j in 0..P::K
        invariant
            b1.wf(),
            b1.has_all(h_bytes@),
            b2.extends(b1),
            n == ix(P::N) && k == ix(P::K) && o == ix(P::OMEGA_USIZE),
            h_bytes@.len() == P::HINT_BYTES,
            P::HINT_BYTES == P::OMEGA_USIZE + P::K,
            starts@.len() == P::K,
            endpoints@.len() == P::K,
            forall|i: int|
                #![trigger starts@[i]]
                0 <= i < P::K ==> starts_at(b2, h_bytes@, o, starts@[i], i),
            forall|i: int| 0 <= i < P::K ==> (#[trigger] endpoints@[i]) == h_bytes@[o + i],
            builder.extends(b2),
            forall|w: Seq<u64>|
                #[trigger] builder.accepts(w) == (b2.accepts(w) && order_ok(
                    b1.vals(w, h_bytes@),
                    o,
                    ix(j),
                )),
    {
        let ghost bi = *builder;
        proof {
            lemma_vals_kept(b2, b1, h_bytes@);
            lemma_vals_kept(bi, b2, h_bytes@);
            lemma_starts_at_kept(bi, b2, h_bytes@, o, starts@[ix(j)], ix(j));
            assert(endpoints@[ix(j)] == h_bytes@[o + j]);
            assert(bi.has(h_bytes@[o + j]));
        }
        assert_segment_order::<P>(builder, h_bytes.as_slice(), starts[j], endpoints[j], j);
        proof {
            assert forall|w: Seq<u64>| #[trigger] builder.accepts(w) == (b2.accepts(w) && order_ok(
                b1.vals(w, h_bytes@),
                o,
                j + 1,
            )) by {
                let b = b1.vals(w, h_bytes@);
                assert(bi.vals(w, h_bytes@) == b2.vals(w, h_bytes@));
                assert(bi.vals(w, h_bytes@) == b);
                assert(order_ok(b, o, j + 1) == (order_ok(b, o, ix(j)) && segment_order_ok(
                    b,
                    o,
                    ix(j),
                    o,
                )));
            }
        }
    }
    let ghost b3 = *builder;
    let mut h_coeffs: Vec<Wire> = Vec::new();
    for j in 0..P::K
        invariant
            b1.wf(),
            b1.has_all(h_bytes@),
            b2.extends(b1),
            b3.extends(b2),
            n == ix(P::N) && k == ix(P::K) && o == ix(P::OMEGA_USIZE),
            0 < n <= 256,
            h_bytes@.len() == P::HINT_BYTES,
            P::HINT_BYTES == P::OMEGA_USIZE + P::K,
            starts@.len() == P::K,
            endpoints@.len() == P::K,
            forall|i: int|
                #![trigger starts@[i]]
                0 <= i < P::K ==> starts_at(b2, h_bytes@, o, starts@[i], i),
            forall|i: int| 0 <= i < P::K ==> (#[trigger] endpoints@[i]) == h_bytes@[o + i],
            builder.computes_on(b3),
            builder.has_all(h_coeffs@),
            h_coeffs@.len() == j * n,
            forall|w: Seq<u64>, i: int|
                0 <= i < j * n ==> #[trigger] builder.val(w, h_coeffs@[i]) == hint_coeff(
                    b1.vals(w, h_bytes@),
                    o,
                    i / n,
                    i % n,
                ),
    {
        proof {
            lemma_flat_index(ix(j), k, 0, n);
        }
        for c in 0..P::N
            invariant
                j < P::K,
                b1.wf(),
                b1.has_all(h_bytes@),
                b2.extends(b1),
                b3.extends(b2),
                n == ix(P::N) && k == ix(P::K) && o == ix(P::OMEGA_USIZE),
                0 < n <= 256,
                h_bytes@.len() == P::HINT_BYTES,
                P::HINT_BYTES == P::OMEGA_USIZE + P::K,
                starts@.len() == P::K,
                endpoints@.len() == P::K,
                forall|i: int|
                    #![trigger starts@[i]]
                    0 <= i < P::K ==> starts_at(b2, h_bytes@, o, starts@[i], i),
                forall|i: int| 0 <= i < P::K ==> (#[trigger] endpoints@[i]) == h_bytes@[o + i],
                builder.computes_on(b3),
                builder.has_all(h_coeffs@),
                h_coeffs@.len() == j * n + c,
                forall|w: Seq<u64>, i: int|
                    0 <= i < j * n + c ==> #[trigger] builder.val(w, h_coeffs@[i]) == hint_coeff(
                        b1.vals(w, h_bytes@),
                        o,
                        i / n,
                        i % n,
                    ),
        {
            let ghost bi = *builder;
            let ghost hi = h_coeffs@;
            proof {
                lemma_vals_kept(b2, b1, h_bytes@);
                lemma_vals_kept(bi, b2, h_bytes@);
                lemma_starts_at_kept(bi, b2, h_bytes@, o, starts@[ix(j)], ix(j));
                assert(endpoints@[ix(j)] == h_bytes@[o + j]);
                assert(bi.has(h_bytes@[o + j]));
                lemma_flat_index(ix(j), k, ix(c), n);
            }
            let coeff = decode_hint_coeff::<P>(
                builder,
                h_bytes.as_slice(),
                starts[j],
                endpoints[j],
                j,
                c,
            );
            h_coeffs.push(coeff);
            proof {
                assert forall|w: Seq<u64>, i: int|
                    0 <= i < j * n + c + 1 implies #[trigger] builder.val(w, h_coeffs@[i])
                    == hint_coeff(b1.vals(w, h_bytes@), o, i / n, i % n) by {
                    if i < j * n + c {
                        assert(h_coeffs@[i] == hi[i]);
                        assert(bi.has(hi[i]));
                        assert(bi.val(w, hi[i]) == hint_coeff(
                            b1.vals(w, h_bytes@),
                            o,
                            i / n,
                            i % n,
                        ));
                    } else {
                        assert(bi.vals(w, h_bytes@) == b2.vals(w, h_bytes@));
                    }
                }
            }
        }
    }
    proof {
        assert forall|w: Seq<u64>| #[trigger] builder.vals(w, h_coeffs@) == expanded_hint(
            packed_bytes(b0.vals(w, h_words@), ix(P::HINT_BYTES)),
            n,
            k,
            o,
        ) by {
            assert(b1.vals(w, h_bytes@) == packed_bytes(
                b0.vals(w, h_words@),
                ix(P::HINT_BYTES),
            ));
            assert(builder.vals(w, h_coeffs@) =~= expanded_hint(
                packed_bytes(b0.vals(w, h_words@), ix(P::HINT_BYTES)),
                n,
                k,
                o,
            ));
        }
        assert forall|w: Seq<u64>| #[trigger] builder.accepts(w) == (b0.accepts(w)
            && hint_canonical(
            packed_bytes(b0.vals(w, h_words@), ix(P::HINT_BYTES)),
            n,
            k,
            o,
        )) by {
            assert(b3.accepts(w) == (b2.accepts(w) && order_ok(b1.vals(w, h_bytes@), o, k)));
            assert(b1.accepts(w) == b0.accepts(w));
        }
    }
    h_coeffs
}

/// Whether the first `m` positions, where they lie in segment `j`, point at a set coefficient.
pub open spec fn segment_hits(
    b: Seq<u64>,
    h: Seq<u64>,
    n: int,
    omega: int,
    j: int,
    m: int,
) -> bool {
    forall|p: int|
        0 <= p < m && in_segment(b, omega, j, p) ==> h[j * n + #[trigger] b[p]] == 1
}

/// Whether every position of the first `m` segments points at a set coefficient.
pub open spec fn hits(b: Seq<u64>, h: Seq<u64>, n: int, omega: int, m: int) -> bool {
    forall|j: int| 0 <= j < m ==> #[trigger] segment_hits(b, h, n, omega, j, omega)
}

/// Whether the packed hint is canonical, its positions point at set coefficients, and the
/// coefficients add up to the number of positions.
pub open spec fn hint_matches(b: Seq<u64>, h: Seq<u64>, n: int, k: int, omega: int) -> bool {
    &&& hint_canonical(b, n, k, omega)
    &&& hits(b, h, n, omega, k)
    &&& weight_of(h) == endpoint(b, omega, k - 1)
}

proof fn lemma_weight_prefix(h: Seq<u64>, i: int)
    requires
        0 <= i <= h.len(),
    ensures
        0 <= weight_of(h.take(i)) <= weight_of(h),
    decreases h.len() - i, h.len(),
{
    if i == h.len() {
        assert(h.take(i) =~= h);
        if i > 0 {
            lemma_weight_prefix(h.drop_last(), i - 1);
            assert(h.drop_last().take(i - 1) =~= h.drop_last());
        }
    } else {
        lemma_weight_prefix(h, i + 1);
        let t = h.take(i + 1);
        assert(t.drop_last() =~= h.take(i));
        if i > 0 {
            lemma_weight_prefix(h.drop_last(), i);
            assert(h.drop_last().take(i) =~= h.take(i));
        }
    }
}

/// Asserts that the words `h_coeffs` add up to `weight`, without overflow.
fn assert_h_bits_and_exact_weight_for<P: MldsaParams>(
    builder: &mut CircuitBuilder,
    h_coeffs: &[Wire],
    weight: Wire,
)
    requires
        old(builder).wf(),
        old(builder).has_all(h_coeffs@),
        old(builder).has(weight),
        h_coeffs@.len() == P::W1_COEFFICIENTS,
    ensures
        final(builder).extends(*old(builder)),
        forall|w: Seq<u64>|
            #[trigger] final(builder).accepts(w) == (old(builder).accepts(w) && weight_of(
                old(builder).vals(w, h_coeffs@),
            ) == old(builder).val(w, weight)),
{
    let ghost b0 = *builder;
    let ghost hs = h_coeffs@;
    let mut h_weight = builder.add_constant_64(0);
    let n: usize = h_coeffs.len();
    proof {
        assert forall|w: Seq<u64>|
            #![trigger b0.vals(w, hs).take(0)]
            weight_of(b0.vals(w, hs).take(0)) == 0 by {}
    }
    for i in 0..n
        invariant
            b0.wf(),
            b0.has_all(hs),
            hs == h_coeffs@,
            n == hs.len(),
            builder.extends(b0),
            builder.has(h_weight),
            forall|w: Seq<u64>|
                #[trigger] builder.accepts(w) == (b0.accepts(w) && weight_of(
                    b0.vals(w, hs).take(ix(i)),
                ) <= u64::MAX),
            forall|w: Seq<u64>|
                #![trigger builder.val(w, h_weight)]
                weight_of(b0.vals(w, hs).take(ix(i))) <= u64::MAX ==> builder.val(w, h_weight)
                    == weight_of(b0.vals(w, hs).take(ix(i))),
    {
        let ghost bi = *builder;
        let h = h_coeffs[i];
        assert(b0.has(hs[ix(i)]));
        let (next_weight, _carry) = builder.iadd(h_weight, h);
        let ghost bb = *builder;
        let monotone = builder.icmp_ule(h_weight, next_weight);
        builder.assert_true(monotone);
        proof {
            assert forall|w: Seq<u64>|
                #![trigger builder.accepts(w)]
                #![trigger builder.val(w, next_weight)]
                builder.accepts(w) == (b0.accepts(w) && weight_of(b0.vals(w, hs).take(i + 1))
                    <= u64::MAX) && (weight_of(b0.vals(w, hs).take(i + 1)) <= u64::MAX
                    ==> builder.val(w, next_weight) == weight_of(b0.vals(w, hs).take(i + 1))) by {
                let v = b0.vals(w, hs);
                let b = v.take(i + 1);
                assert(b.drop_last() =~= v.take(ix(i)));
                assert(b.last() == v[ix(i)]);
                assert(bi.val(w, h) == v[ix(i)]);
                assert(bb.val(w, h_weight) == bi.val(w, h_weight));
                lemma_weight_prefix(v, ix(i));
                assert(bb.val(w, next_weight) == add64(bi.val(w, h_weight), v[ix(i)]));
            }
        }
        h_weight = next_weight;
    }
    let ghost bl = *builder;
    builder.assert_eq(h_weight, weight);
    proof {
        assert forall|w: Seq<u64>| #[trigger] builder.accepts(w) == (b0.accepts(w) && weight_of(
            b0.vals(w, hs),
        ) == b0.val(w, weight)) by {
            assert(b0.vals(w, hs).take(ix(n)) =~= b0.vals(w, hs));
            assert(bl.val(w, h_weight) == bl.val(w, h_weight));
            assert(bl.val(w, weight) == b0.val(w, weight));
        }
    }
}

/// Asserts that the positions of segment `j` are strictly increasing and point at set coefficients
/// of `poly_h`, the coefficients of polynomial `j`.
fn assert_segment_matches<P: MldsaParams>(
    builder: &mut CircuitBuilder,
    h_bytes: &[Wire],
    h_coeffs: &[Wire],
    start: Wire,
    end: Wire,
    j: usize,
)
    requires
        old(builder).wf(),
        old(builder).has_all(h_bytes@),
        old(builder).has_all(h_coeffs@),
        h_bytes@.len() == P::HINT_BYTES,
        h_coeffs@.len() == P::W1_COEFFICIENTS,
        j < P::K,
        starts_at(*old(builder), h_bytes@, ix(P::OMEGA_USIZE), start, ix(j)),
        end == h_bytes@[P::OMEGA_USIZE + j],
        forall|w: Seq<u64>, p: int|
            #![trigger old(builder).accepts(w), h_bytes@[p]]
            old(builder).accepts(w) && 0 <= p < P::OMEGA_USIZE && in_segment(
                old(builder).vals(w, h_bytes@),
                ix(P::OMEGA_USIZE),
                ix(j),
                p,
            ) ==> old(builder).val(w, h_bytes@[p]) < P::N,
    ensures
        final(builder).extends(*old(builder)),
        forall|w: Seq<u64>|
            #[trigger] final(builder).accepts(w) == (old(builder).accepts(w) && segment_order_ok(
                old(builder).vals(w, h_bytes@),
                ix(P::OMEGA_USIZE),
                ix(j),
                ix(P::OMEGA_USIZE),
            ) && segment_hits(
                old(builder).vals(w, h_bytes@),
                old(builder).vals(w, h_coeffs@),
                ix(P::N),
                ix(P::OMEGA_USIZE),
                ix(j),
                ix(P::OMEGA_USIZE),
            )),
{
    let ghost b0 = *builder;
    let ghost (n, o) = (ix(P::N), ix(P::OMEGA_USIZE));
    proof {
        P::lemma_params();
        lemma_flat_index(ix(j), ix(P::K), 0, n);
        assert(j * P::N <= 64 * 256) by (nonlinear_arith)
            requires
                j <= 64,
                P::N <= 256,
        ;
    }
    let first: usize = j * P::N;
    let poly_h = vstd::slice::slice_subrange(h_coeffs, first, first + P::N);
    let one = builder.add_constant_64(1);
    let ghost bz = *builder;
    for p in 0..P::OMEGA_USIZE
        invariant
            b0.wf(),
            b0.has_all(h_bytes@),
            b0.has_all(h_coeffs@),
            n == ix(P::N) && o == ix(P::OMEGA_USIZE),
            0 < n <= 256,
            h_bytes@.len() == P::HINT_BYTES,
            P::HINT_BYTES == P::OMEGA_USIZE + P::K,
            h_coeffs@.len() == P::W1_COEFFICIENTS,
            j < P::K,
            first == j * n,
            first + n <= h_coeffs@.len(),
            poly_h@ == h_coeffs@.subrange(ix(first), first + n),
            starts_at(b0, h_bytes@, o, start, ix(j)),
            end == h_bytes@[o + j],
            forall|w: Seq<u64>, q: int|
                #![trigger b0.accepts(w), h_bytes@[q]]
                b0.accepts(w) && 0 <= q < o && in_segment(b0.vals(w, h_bytes@), o, ix(j), q)
                    ==> b0.val(w, h_bytes@[q]) < P::N,
            bz.computes_on(b0),
            bz.has(one),
            forall|w: Seq<u64>| #[trigger] bz.val(w, one) == 1,
            builder.extends(bz),
            forall|w: Seq<u64>|
                #[trigger] builder.accepts(w) == (b0.accepts(w) && segment_order_ok(
                    b0.vals(w, h_bytes@),
                    o,
                    ix(j),
                    ix(p),
                ) && segment_hits(
                    b0.vals(w, h_bytes@),
                    b0.vals(w, h_coeffs@),
                    n,
                    o,
                    ix(j),
                    ix(p),
                )),
    {
        let ghost bi = *builder;
        proof {
            lemma_vals_kept(bi, b0, h_bytes@);
            lemma_starts_at_kept(bi, b0, h_bytes@, o, start, ix(j));
            assert(b0.has(h_bytes@[o + j]));
            assert(b0.has(h_bytes@[ix(p)]));
        }
        let in_seg = assert_position_order::<P>(builder, h_bytes, start, end, j, p);
        let ghost b1 = *builder;
        proof {
            assert forall|i: int| 0 <= i < poly_h@.len() implies b1.has(#[trigger] poly_h@[i]) by {
                assert(b0.has(h_coeffs@[first + i]));
            }
        }
        let selected_h = select_indexed_wire_unchecked(builder, poly_h, h_bytes[p]);
        let ghost b2 = *builder;
        let is_one = builder.icmp_eq(selected_h, one);
        let ghost b3 = *builder;
        assert_true_cond(builder, is_one, in_seg);
        proof {
            assert forall|w: Seq<u64>| #[trigger] builder.accepts(w) == (b0.accepts(w)
                && segment_order_ok(b0.vals(w, h_bytes@), o, ix(j), p + 1) && segment_hits(
                b0.vals(w, h_bytes@),
                b0.vals(w, h_coeffs@),
                n,
                o,
                ix(j),
                p + 1,
            )) by {
                let b = b0.vals(w, h_bytes@);
                let h = b0.vals(w, h_coeffs@);
                let here = in_segment(b, o, ix(j), ix(p));
                assert(bi.vals(w, h_bytes@) == b);
                assert(segment_order_ok(b, o, ix(j), p + 1) == (segment_order_ok(b, o, ix(j), ix(p))
                    && order_ok_at(b, o, ix(j), ix(p))));
                assert(b3.val(w, in_seg) == b1.val(w, in_seg));
                assert(b1.val(w, in_seg) == mask(here));
                assert(bz.val(w, one) == 1);
                assert(b2.val(w, one) == 1);
                assert(b1.val(w, h_bytes@[ix(p)]) == b[ix(p)]);
                if b0.accepts(w) && here {
                    assert(b0.val(w, h_bytes@[ix(p)]) < P::N);
                    let c = iw(b[ix(p)]);
                    assert(poly_h@[c] == h_coeffs@[first + c]);
                    assert(b0.has(h_coeffs@[first + c]));
                    assert(b2.val(w, selected_h) == b1.val(w, poly_h@[c]));
                    assert(b2.val(w, selected_h) == h[j * n + b[ix(p)]]);
                }
                assert(segment_hits(b, h, n, o, ix(j), p + 1) == (segment_hits(
                    b,
                    h,
                    n,
                    o,
                    ix(j),
                    ix(p),
                ) && (here ==> h[j * n + b[ix(p)]] == 1)));
                assert(b2.accepts(w) == b1.accepts(w));
                assert(b3.accepts(w) == b1.accepts(w));
            }
        }
    }
}

/// Enforces canonical decoding of the packed hint against expanded hidden hint bits.
///
/// The expanded `h` bits are supplied redundantly as hidden witness and the packed encoding proves
/// their canonical origin: the circuit accepts exactly where the expanded bits are the decoded
/// ones, as `lemma_hint_matches_iff_decoded` states.
#[verifier::spinoff_prover]
#[verifier::rlimit(40)]
pub fn assert_hint_canonical_matches_expanded_for<P: MldsaParams>(
    builder: &mut CircuitBuilder,
    h_words: &[Wire],
    h_coeffs: &[Wire],
)
    requires
        old(builder).wf(),
        old(builder).has_all(h_words@),
        old(builder).has_all(h_coeffs@),
        h_words@.len() == (P::HINT_BYTES + 7) / 8,
        h_coeffs@.len() == P::W1_COEFFICIENTS,
    ensures
        final(builder).extends(*old(builder)),
        forall|w: Seq<u64>|
            #[trigger] final(builder).accepts(w) == (old(builder).accepts(w) && hint_matches(
                packed_bytes(old(builder).vals(w, h_words@), ix(P::HINT_BYTES)),
                old(builder).vals(w, h_coeffs@),
                ix(P::N),
                ix(P::K),
                ix(P::OMEGA_USIZE),
            )),
{
    let ghost b0 = *builder;
    let ghost (n, k, o) = (ix(P::N), ix(P::K), ix(P::OMEGA_USIZE));
    proof {
        P::lemma_params();
    }
    let h_bytes = unpack_bytes_from_words(builder, h_words, P::HINT_BYTES);
    let ghost b1 = *builder;
    proof {
        lemma_vals_kept(b1, b0, h_coeffs@);
        assert forall|w: Seq<u64>| #[trigger] b1.vals(w, h_bytes@) == packed_bytes(
            b0.vals(w, h_words@),
            ix(P::HINT_BYTES),
        ) by {
            assert(b1.vals(w, h_bytes@) =~= packed_bytes(
                b0.vals(w, h_words@),
                ix(P::HINT_BYTES),
            )) by {
                assert forall|i: int| 0 <= i < P::HINT_BYTES implies #[trigger] b1.vals(
                    w,
                    h_bytes@,
                )[i] == packed_bytes(b0.vals(w, h_words@), ix(P::HINT_BYTES))[i] by {
                    assert(b1.val(w, h_bytes@[i]) == byte_of(b0.val(w, h_words@[i / 8]), i % 8));
                }
            }
        }
    }
    let (starts, endpoints) = hint_layout::<P>(builder, h_bytes.as_slice());
    let ghost b2 = *builder;
    for j in 0..P::K
        invariant
            b1.wf(),
            b1.has_all(h_bytes@),
            b1.has_all(h_coeffs@),
            b2.extends(b1),
            n == ix(P::N) && k == ix(P::K) && o == ix(P::OMEGA_USIZE),
            h_bytes@.len() == P::HINT_BYTES,
            h_coeffs@.len() == P::W1_COEFFICIENTS,
            P::HINT_BYTES == P::OMEGA_USIZE + P::K,
            starts@.len() == P::K,
            endpoints@.len() == P::K,
            forall|i: int|
                #![trigger starts@[i]]
                0 <= i < P::K ==> starts_at(b2, h_bytes@, o, starts@[i], i),
            forall|i: int| 0 <= i < P::K ==> (#[trigger] endpoints@[i]) == h_bytes@[o + i],
            forall|w: Seq<u64>|
                #[trigger] b2.accepts(w) ==> endpoints_ok(b1.vals(w, h_bytes@), o, k)
                    && positions_ok(b1.vals(w, h_bytes@), n, k, o, o),
            builder.extends(b2),
            forall|w: Seq<u64>|
                #[trigger] builder.accepts(w) == (b2.accepts(w) && order_ok(
                    b1.vals(w, h_bytes@),
                    o,
                    ix(j),
                ) && hits(b1.vals(w, h_bytes@), b1.vals(w, h_coeffs@), n, o, ix(j))),
    {
        let ghost bi = *builder;
        proof {
            lemma_vals_kept(b2, b1, h_bytes@);
            lemma_vals_kept(bi, b2, h_bytes@);
            lemma_vals_kept(b2, b1, h_coeffs@);
            lemma_vals_kept(bi, b2, h_coeffs@);
            lemma_starts_at_kept(bi, b2, h_bytes@, o, starts@[ix(j)], ix(j));
            assert(endpoints@[ix(j)] == h_bytes@[o + j]);
            assert forall|w: Seq<u64>, p: int|
                #![trigger bi.accepts(w), h_bytes@[p]]
                bi.accepts(w) && 0 <= p < o && in_segment(
                    bi.vals(w, h_bytes@),
                    o,
                    ix(j),
                    p,
                ) implies bi.val(w, h_bytes@[p]) < P::N by {
                let b = b1.vals(w, h_bytes@);
                assert(bi.vals(w, h_bytes@) == b2.vals(w, h_bytes@));
                assert(bi.vals(w, h_bytes@)[p] == b[p]);
                lemma_endpoints_monotone(b, o, k, ix(j));
                assert(position_ok(b, n, k, o, p));
            }
        }
        assert_segment_matches::<P>(
            builder,
            h_bytes.as_slice(),
            h_coeffs,
            starts[j],
            endpoints[j],
            j,
        );
        proof {
            assert forall|w: Seq<u64>| #[trigger] builder.accepts(w) == (b2.accepts(w) && order_ok(
                b1.vals(w, h_bytes@),
                o,
                j + 1,
            ) && hits(b1.vals(w, h_bytes@), b1.vals(w, h_coeffs@), n, o, j + 1)) by {
                let b = b1.vals(w, h_bytes@);
                let h = b1.vals(w, h_coeffs@);
                assert(bi.vals(w, h_bytes@) == b2.vals(w, h_bytes@));
                assert(bi.vals(w, h_bytes@) == b);
                assert(bi.vals(w, h_coeffs@) == b2.vals(w, h_coeffs@));
                assert(bi.vals(w, h_coeffs@) == h);
                assert(order_ok(b, o, j + 1) == (order_ok(b, o, ix(j)) && segment_order_ok(
                    b,
                    o,
                    ix(j),
                    o,
                )));
                assert(hits(b, h, n, o, j + 1) == (hits(b, h, n, o, ix(j)) && segment_hits(
                    b,
                    h,
                    n,
                    o,
                    ix(j),
                    o,
                )));
            }
        }
    }
    let ghost b3 = *builder;
    let last: usize = P::K - 1;
    proof {
        lemma_vals_kept(b3, b1, h_bytes@);
        lemma_vals_kept(b3, b1, h_coeffs@);
        assert(b3.has(h_bytes@[o + last]));
    }
    assert_h_bits_and_exact_weight_for::<P>(builder, h_coeffs, endpoints[last]);
    proof {
        assert forall|w: Seq<u64>| #[trigger] builder.accepts(w) == (b0.accepts(w) && hint_matches(
            packed_bytes(b0.vals(w, h_words@), ix(P::HINT_BYTES)),
            b0.vals(w, h_coeffs@),
            n,
            k,
            o,
        )) by {
            let b = b1.vals(w, h_bytes@);
            assert(b == packed_bytes(b0.vals(w, h_words@), ix(P::HINT_BYTES)));
            assert(b3.vals(w, h_bytes@) == b);
            assert(b3.vals(w, h_bytes@)[o + last] == b3.val(w, h_bytes@[o + last]));
            assert(b3.vals(w, h_coeffs@) == b1.vals(w, h_coeffs@));
            assert(b1.vals(w, h_coeffs@) == b0.vals(w, h_coeffs@));
            assert(b1.accepts(w) == b0.accepts(w));
        }
    }
}

/// With monotone endpoints, no segment ends behind the last one.
pub proof fn lemma_endpoints_monotone(b: Seq<u64>, omega: int, k: int, j: int)
    requires
        0 <= j < k,
        endpoints_ok(b, omega, k),
    ensures
        0 <= segment_start(b, omega, j) <= endpoint(b, omega, j) <= endpoint(b, omega, k - 1)
            <= omega,
    decreases k - j,
{
    assert(endpoint_ok(b, omega, j));
    assert(endpoint_ok(b, omega, k - 1));
    if j < k - 1 {
        assert(endpoint_ok(b, omega, j + 1));
        lemma_endpoints_monotone(b, omega, k, j + 1);
    }
}

/// Canonically decodes the 84-byte ML-DSA-44 packed hint into expanded hint bits.
pub fn mldsa44_decode_hint_canonical(builder: &mut CircuitBuilder, h_words: &[Wire]) -> (h_coeffs:
    Vec<Wire>)
    requires
        old(builder).wf(),
        old(builder).has_all(h_words@),
        h_words@.len() == mldsa44::HINT_WORDS,
    ensures
        final(builder).extends(*old(builder)),
        final(builder).has_all(h_coeffs@),
        h_coeffs@.len() == 1024,
        forall|w: Seq<u64>|
            #[trigger] final(builder).accepts(w) == (old(builder).accepts(w) && hint_canonical(
                packed_bytes(old(builder).vals(w, h_words@), 84),
                256,
                4,
                80,
            )),
        forall|w: Seq<u64>|
            #[trigger] final(builder).vals(w, h_coeffs@) == expanded_hint(
                packed_bytes(old(builder).vals(w, h_words@), 84),
                256,
                4,
                80,
            ),
{
    proof {
        lemma_mldsa44();
    }
    decode_hint_canonical_for::<Mldsa44>(builder, h_words)
}

/// Enforces canonical decoding of the ML-DSA-44 packed hint against expanded hidden hint bits.
pub fn assert_mldsa44_hint_canonical_matches_expanded(
    builder: &mut CircuitBuilder,
    h_words: &[Wire],
    h_coeffs: &[Wire],
)
    requires
        old(builder).wf(),
        old(builder).has_all(h_words@),
        old(builder).has_all(h_coeffs@),
        h_words@.len() == mldsa44::HINT_WORDS,
        h_coeffs@.len() == 1024,
    ensures
        final(builder).extends(*old(builder)),
        forall|w: Seq<u64>|
            #[trigger] final(builder).accepts(w) == (old(builder).accepts(w) && hint_matches(
                packed_bytes(old(builder).vals(w, h_words@), 84),
                old(builder).vals(w, h_coeffs@),
                256,
                4,
                80,
            )),
{
    proof {
        lemma_mldsa44();
    }
    assert_hint_canonical_matches_expanded_for::<Mldsa44>(builder, h_words, h_coeffs);
}

} // verus!
