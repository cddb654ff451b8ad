//! The packed and the expanded form of a hint determine each other.
use super::hint::{
    all_bits, endpoint, endpoint_ok, expanded_hint, hint_canonical, hint_coeff, hint_matches, hits, in_segment,
    lemma_endpoints_monotone, lemma_flat_index, order_ok_at, packed_bytes, position_ok, segment_hits,
    segment_order_ok, segment_start, sets_coeff, weight_of,
};
use crate::circuit::word_laws::lemma_byte_gate;
use vstd::arithmetic::power2::pow2;
use vstd::prelude::*;

verus! {

proof fn lemma_weight_append(a: Seq<u64>, b: Seq<u64>)
    ensures
        weight_of(a + b) == weight_of(a) + weight_of(b),
    decreases b.len(),
{
    if b.len() == 0 {
        assert(a + b =~= a);
    } else {
        lemma_weight_append(a, b.drop_last());
        assert((a + b).drop_last() =~= a + b.drop_last());
        assert((a + b).last() == b.last());
    }
}

proof fn lemma_weight_update(h: Seq<u64>, i: int, v: u64)
    requires
        0 <= i < h.len(),
    ensures
        weight_of(h.update(i, v)) == weight_of(h) - h[i] + v,
    decreases h.len(),
{
    if i == h.len() - 1 {
        assert(h.update(i, v).drop_last() =~= h.drop_last());
    } else {
        lemma_weight_update(h.drop_last(), i, v);
        assert(h.update(i, v).drop_last() =~= h.drop_last().update(i, v));
    }
}

/// The indicator of the positions with indices from `s` to `e`.
spec fn indicator(b: Seq<u64>, n: int, s: int, e: int) -> Seq<u64> {
    Seq::new(
        n as nat,
        |c: int|
            if exists|p: int| s <= p < e && #[trigger] b[p] == c {
                1u64
            } else {
                0u64
            },
    )
}

proof fn lemma_increasing(b: Seq<u64>, s: int, e: int, p: int, q: int)
    requires
        s <= p < q < e,
        forall|i: int| s < i < e ==> b[i - 1] < #[trigger] b[i],
    ensures
        b[p] < b[q],
    decreases q - p,
{
    if p < q - 1 {
        lemma_increasing(b, s, e, p, q - 1);
    }
    assert(b[q - 1] < b[q]);
}

proof fn lemma_indicator_weight(b: Seq<u64>, n: int, s: int, e: int)
    requires
        s <= e,
        forall|p: int| s <= p < e ==> #[trigger] b[p] < n,
        forall|i: int| s < i < e ==> b[i - 1] < #[trigger] b[i],
    ensures
        weight_of(indicator(b, n, s, e)) == e - s,
    decreases e - s,
{
    let cur = indicator(b, n, s, e);
    if s == e {
        assert forall|c: int| 0 <= c < cur.len() implies #[trigger] cur[c] == 0 by {}
        lemma_weight_zero(cur);
    } else {
        lemma_indicator_weight(b, n, s, e - 1);
        let prev = indicator(b, n, s, e - 1);
        let last = b[e - 1] as int;
        assert(b[e - 1] < n);
        assert(prev[last] == 0) by {
            if exists|p: int| s <= p < e - 1 && #[trigger] b[p] == last {
                let p = choose|p: int| s <= p < e - 1 && #[trigger] b[p] == last;
                lemma_increasing(b, s, e, p, e - 1);
            }
        }
        assert(cur =~= prev.update(last, 1)) by {
            assert forall|c: int| 0 <= c < n implies #[trigger] cur[c] == prev.update(
                last,
                1,
            )[c] by {
                if c == last {
                    assert(b[e - 1] == c);
                } else {
                    if exists|p: int| s <= p < e && #[trigger] b[p] == c {
                        let p = choose|p: int| s <= p < e && #[trigger] b[p] == c;
                        assert(s <= p < e - 1 && b[p] == c);
                    }
                    if exists|p: int| s <= p < e - 1 && #[trigger] b[p] == c {
                        let p = choose|p: int| s <= p < e - 1 && #[trigger] b[p] == c;
                        assert(s <= p < e && b[p] == c);
                    }
                }
            }
        }
        lemma_weight_update(prev, last, 1);
    }
}

proof fn lemma_weight_zero(h: Seq<u64>)
    requires
        forall|i: int| 0 <= i < h.len() ==> #[trigger] h[i] == 0,
    ensures
        weight_of(h) == 0,
    decreases h.len(),
{
    if h.len() > 0 {
        lemma_weight_zero(h.drop_last());
        assert(h[h.len() - 1] == 0);
    }
}

/// The decoded coefficients of the first `m` polynomials.
spec fn expanded_upto(b: Seq<u64>, n: int, omega: int, m: int) -> Seq<u64> {
    Seq::new((m * n) as nat, |i: int| hint_coeff(b, omega, i / n, i % n))
}

proof fn lemma_expanded_weight(b: Seq<u64>, n: int, k: int, omega: int, m: int)
    requires
        0 < n,
        0 <= omega,
        0 <= m <= k,
        hint_canonical(b, n, k, omega),
    ensures
        weight_of(expanded_upto(b, n, omega, m)) == (if m == 0 {
            0
        } else {
            endpoint(b, omega, m - 1)
        }),
    decreases m,
{
    let cur = expanded_upto(b, n, omega, m);
    if m == 0 {
        assert(0 * n == 0);
        assert(cur.len() == 0);
    } else {
        let j = m - 1;
        lemma_expanded_weight(b, n, k, omega, j);
        let prev = expanded_upto(b, n, omega, j);
        let (s, e) = (segment_start(b, omega, j), endpoint(b, omega, j));
        let ind = indicator(b, n, s, e);
        lemma_endpoints_monotone(b, omega, k, j);
        lemma_flat_index(j, k, 0, n);
        assert(j * n + n == m * n);
        assert(cur =~= prev + ind) by {
            assert(cur.len() == prev.len() + ind.len());
            assert forall|i: int| 0 <= i < m * n implies #[trigger] cur[i] == (prev + ind)[i] by {
                if i >= j * n {
                    let c = i - j * n;
                    lemma_flat_index(j, k, c, n);
                    if sets_coeff(b, omega, j, c, omega) {
                        let p = choose|p: int|
                            0 <= p < omega && in_segment(b, omega, j, p) && #[trigger] b[p] == c;
                        assert(s <= p < e && b[p] == c);
                    }
                    if exists|p: int| s <= p < e && #[trigger] b[p] == c {
                        let p = choose|p: int| s <= p < e && #[trigger] b[p] == c;
                        assert(0 <= p < omega && in_segment(b, omega, j, p) && b[p] == c);
                    }
                }
            }
        }
        assert forall|p: int| s <= p < e implies #[trigger] b[p] < n by {
            assert(position_ok(b, n, k, omega, p));
        }
        assert(segment_order_ok(b, omega, j, omega));
        assert forall|i: int| s < i < e implies b[i - 1] < #[trigger] b[i] by {
            assert(order_ok_at(b, omega, j, i));
        }
        lemma_indicator_weight(b, n, s, e);
        lemma_weight_append(prev, ind);
    }
}

proof fn lemma_pointwise(d: Seq<u64>, h: Seq<u64>)
    requires
        d.len() == h.len(),
        forall|i: int| 0 <= i < d.len() ==> #[trigger] d[i] <= h[i],
    ensures
        weight_of(d) <= weight_of(h),
        weight_of(d) == weight_of(h) ==> d =~= h,
    decreases d.len(),
{
    if d.len() > 0 {
        let (d1, h1) = (d.drop_last(), h.drop_last());
        assert forall|i: int| 0 <= i < d1.len() implies #[trigger] d1[i] <= h1[i] by {
            assert(d[i] <= h[i]);
        }
        lemma_pointwise(d1, h1);
        assert(d[d.len() - 1] <= h[d.len() - 1]);
        if weight_of(d) == weight_of(h) {
            assert forall|i: int| 0 <= i < d.len() implies #[trigger] d[i] == h[i] by {
                if i < d.len() - 1 {
                    assert(d1[i] == h1[i]);
                }
            }
        }
    }
}

/// A decoded hint has as many set coefficients as the packed form has positions.
pub proof fn lemma_decoded_weight(b: Seq<u64>, n: int, k: int, omega: int)
    requires
        0 < n,
        0 < k,
        0 <= omega,
        hint_canonical(b, n, k, omega),
    ensures
        all_bits(expanded_hint(b, n, k, omega)),
        weight_of(expanded_hint(b, n, k, omega)) == endpoint(b, omega, k - 1),
        weight_of(expanded_hint(b, n, k, omega)) <= omega,
{
    lemma_expanded_weight(b, n, k, omega, k);
    assert(expanded_hint(b, n, k, omega) =~= expanded_upto(b, n, omega, k));
    lemma_endpoints_monotone(b, omega, k, k - 1);
}

/// The cheap check of a packed hint against expanded coefficients accepts exactly the decoded
/// coefficients of canonical packed hints.
pub proof fn lemma_hint_matches_iff_decoded(
    b: Seq<u64>,
    h: Seq<u64>,
    n: int,
    k: int,
    omega: int,
)
    requires
        0 < n,
        0 < k,
        0 <= omega,
        h.len() == k * n,
    ensures
        hint_matches(b, h, n, k, omega) == (hint_canonical(b, n, k, omega) && h == expanded_hint(
            b,
            n,
            k,
            omega,
        )),
{
    if hint_canonical(b, n, k, omega) {
        let d = expanded_hint(b, n, k, omega);
        lemma_decoded_weight(b, n, k, omega);
        if hits(b, h, n, omega, k) {
            assert forall|i: int| 0 <= i < d.len() implies #[trigger] d[i] <= h[i] by {
                let (j, c) = (i / n, i % n);
                vstd::arithmetic::div_mod::lemma_fundamental_div_mod(i, n);
                vstd::arithmetic::div_mod::lemma_mod_bound(i, n);
                assert(n * j == j * n) by (nonlinear_arith);
                assert(0 <= j < k) by (nonlinear_arith)
                    requires
                        0 <= i < k * n,
                        i == j * n + c,
                        0 <= c < n,
                ;
                if sets_coeff(b, omega, j, c, omega) {
                    let p = choose|p: int|
                        0 <= p < omega && in_segment(b, omega, j, p) && #[trigger] b[p] == c;
                    assert(segment_hits(b, h, n, omega, j, omega));
                    assert(h[j * n + b[p]] == 1);
                }
            }
            lemma_pointwise(d, h);
        }
        if h == d {
            assert forall|j: int| 0 <= j < k implies #[trigger] segment_hits(
                b,
                h,
                n,
                omega,
                j,
                omega,
            ) by {
                assert forall|p: int|
                    0 <= p < omega && in_segment(b, omega, j, p) implies h[j * n + #[trigger] b[p]]
                    == 1 by {
                    lemma_endpoints_monotone(b, omega, k, j);
                    assert(position_ok(b, n, k, omega, p));
                    lemma_flat_index(j, k, b[p] as int, n);
                    assert(sets_coeff(b, omega, j, b[p] as int, omega));
                }
            }
        }
    }
}

/// The positions of one polynomial increase.
proof fn lemma_segment_increases(b: Seq<u64>, omega: int, j: int, p: int, q: int)
    requires
        segment_order_ok(b, omega, j, omega),
        segment_start(b, omega, j) <= p < q < endpoint(b, omega, j) <= omega,
        0 <= p,
    ensures
        b[p] < b[q],
    decreases q - p,
{
    assert(order_ok_at(b, omega, j, q));
    if p < q - 1 {
        lemma_segment_increases(b, omega, j, p, q - 1);
    }
}

/// Of two segments with the same start that set the same coefficients, the second holds no smaller
/// position than the first where they first differ, and is no longer.
proof fn lemma_segment_leads(x: Seq<u64>, y: Seq<u64>, omega: int, j: int, p: int)
    requires
        segment_order_ok(x, omega, j, omega),
        segment_order_ok(y, omega, j, omega),
        0 <= segment_start(x, omega, j) == segment_start(y, omega, j) <= p,
        endpoint(x, omega, j) <= omega,
        endpoint(y, omega, j) <= omega,
        p < endpoint(x, omega, j),
        forall|q: int| segment_start(x, omega, j) <= q < p ==> x[q] == y[q],
        forall|c: int| #[trigger]
            sets_coeff(x, omega, j, c, omega) ==> sets_coeff(y, omega, j, c, omega),
        p <= endpoint(y, omega, j),
    ensures
        p < endpoint(y, omega, j),
        y[p] <= x[p],
{
    let c = x[p] as int;
    assert(in_segment(x, omega, j, p));
    assert(sets_coeff(x, omega, j, c, omega));
    let r = choose|r: int| 0 <= r < omega && in_segment(y, omega, j, r) && #[trigger] y[r] == c;
    if r < p {
        assert(x[r] == y[r]);
        lemma_segment_increases(x, omega, j, r, p);
    }
    if p < r {
        lemma_segment_increases(y, omega, j, p, r);
    }
}

/// Two segments with the same start that set the same coefficients are the same.
proof fn lemma_segments_same(x: Seq<u64>, y: Seq<u64>, omega: int, j: int, p: int)
    requires
        segment_order_ok(x, omega, j, omega),
        segment_order_ok(y, omega, j, omega),
        0 <= segment_start(x, omega, j) == segment_start(y, omega, j) <= p,
        p <= endpoint(x, omega, j) <= omega,
        p <= endpoint(y, omega, j) <= omega,
        forall|q: int| segment_start(x, omega, j) <= q < p ==> x[q] == y[q],
        forall|c: int| #[trigger]
            sets_coeff(x, omega, j, c, omega) == sets_coeff(y, omega, j, c, omega),
    ensures
        endpoint(x, omega, j) == endpoint(y, omega, j),
        forall|q: int|
            segment_start(x, omega, j) <= q < endpoint(x, omega, j) ==> x[q] == y[q],
    decreases omega - p,
{
    if p < endpoint(x, omega, j) {
        lemma_segment_leads(x, y, omega, j, p);
        lemma_segment_leads(y, x, omega, j, p);
        lemma_segments_same(x, y, omega, j, p + 1);
    } else if p < endpoint(y, omega, j) {
        lemma_segment_leads(y, x, omega, j, p);
    }
}

proof fn lemma_hints_same_upto(x: Seq<u64>, y: Seq<u64>, n: int, k: int, omega: int, j: int)
    requires
        0 < n,
        0 <= j <= k,
        0 <= omega,
        hint_canonical(x, n, k, omega),
        hint_canonical(y, n, k, omega),
        expanded_hint(x, n, k, omega) == expanded_hint(y, n, k, omega),
    ensures
        forall|i: int| 0 <= i < j ==> endpoint(x, omega, i) == endpoint(y, omega, i),
        j > 0 ==> forall|p: int| 0 <= p < endpoint(x, omega, j - 1) ==> x[p] == y[p],
    decreases j,
{
    if j > 0 {
        let m = j - 1;
        lemma_hints_same_upto(x, y, n, k, omega, m);
        lemma_endpoints_monotone(x, omega, k, m);
        lemma_endpoints_monotone(y, omega, k, m);
        if m > 0 {
            assert(endpoint(x, omega, m - 1) == endpoint(y, omega, m - 1));
            lemma_endpoints_monotone(x, omega, k, m - 1);
        }
        assert(segment_order_ok(x, omega, m, omega));
        assert(segment_order_ok(y, omega, m, omega));
        assert forall|c: int| #[trigger]
            sets_coeff(x, omega, m, c, omega) == sets_coeff(y, omega, m, c, omega) by {
            if 0 <= c < n {
                lemma_flat_index(m, k, c, n);
                let i = m * n + c;
                assert(expanded_hint(x, n, k, omega)[i] == hint_coeff(x, omega, m, c));
                assert(expanded_hint(y, n, k, omega)[i] == hint_coeff(y, omega, m, c));
            } else {
                lemma_sets_in_range(x, n, k, omega, m, c);
                lemma_sets_in_range(y, n, k, omega, m, c);
            }
        }
        lemma_segments_same(x, y, omega, m, segment_start(x, omega, m));
        assert forall|p: int| 0 <= p < endpoint(x, omega, m) implies x[p] == y[p] by {
            if p < segment_start(x, omega, m) {
                assert(p < endpoint(x, omega, m - 1));
            }
        }
    }
}

proof fn lemma_sets_in_range(b: Seq<u64>, n: int, k: int, omega: int, j: int, c: int)
    requires
        0 <= j < k,
        hint_canonical(b, n, k, omega),
        !(0 <= c < n),
    ensures
        !sets_coeff(b, omega, j, c, omega),
{
    if sets_coeff(b, omega, j, c, omega) {
        let p = choose|p: int|
            0 <= p < omega && in_segment(b, omega, j, p) && #[trigger] b[p] == c;
        lemma_endpoints_monotone(b, omega, k, j);
        assert(position_ok(b, n, k, omega, p));
    }
}

/// A hint has one canonical packed form: two canonical packed hints that decode to the same
/// coefficients agree in every position and every endpoint.
pub proof fn lemma_packed_form_unique(x: Seq<u64>, y: Seq<u64>, n: int, k: int, omega: int, i: int)
    requires
        0 < n,
        0 < k,
        0 <= omega,
        hint_canonical(x, n, k, omega),
        hint_canonical(y, n, k, omega),
        expanded_hint(x, n, k, omega) == expanded_hint(y, n, k, omega),
        0 <= i < omega + k,
    ensures
        x[i] == y[i],
{
    lemma_hints_same_upto(x, y, n, k, omega, k);
    if i < omega {
        if i >= endpoint(x, omega, k - 1) {
            assert(endpoint(x, omega, k - 1) == endpoint(y, omega, k - 1));
            assert(position_ok(x, n, k, omega, i));
            assert(position_ok(y, n, k, omega, i));
        }
    } else {
        assert(endpoint(x, omega, i - omega) == endpoint(y, omega, i - omega));
    }
}

/// The weight of a hint is the number of its set coefficients: lists add up, and a list of one
/// coefficient weighs that coefficient.
pub proof fn lemma_weight_adds(a: Seq<u64>, b: Seq<u64>, c: u64)
    ensures
        weight_of(a + b) == weight_of(a) + weight_of(b),
        weight_of(seq![c]) == c,
        weight_of(Seq::empty()) == 0,
{
    lemma_weight_append(a, b);
    assert(seq![c].drop_last() =~= Seq::empty());
    assert(weight_of(seq![c].drop_last()) == 0);
}

/// The packed bytes of a row of words: byte `8 j + t` is digit `t` of word `j` in base 256.
pub proof fn lemma_packed_bytes_are_digits(words: Seq<u64>, n: int, j: int, t: u32)
    requires
        0 <= j,
        t < 8,
        8 * j + t < n,
    ensures
        packed_bytes(words, n)[8 * j + t] == (words[j] as int / pow2((8 * t) as nat) as int) % 256,
{
    let i = 8 * j + t;
    assert(i / 8 == j && i % 8 == t);
    lemma_byte_gate(words[j], t);
}

/// The positions of the set coefficients among the first `m`, each within its polynomial.
spec fn set_positions(h: Seq<u64>, n: int, m: int) -> Seq<u64>
    decreases m,
{
    if m <= 0 {
        Seq::empty()
    } else if h[m - 1] == 1 {
        set_positions(h, n, m - 1).push(((m - 1) % n) as u64)
    } else {
        set_positions(h, n, m - 1)
    }
}

proof fn lemma_set_positions_len(h: Seq<u64>, n: int, m: int)
    requires
        0 <= m <= h.len(),
        all_bits(h),
    ensures
        set_positions(h, n, m).len() == weight_of(h.take(m)),
    decreases m,
{
    if m > 0 {
        lemma_set_positions_len(h, n, m - 1);
        assert(h.take(m).drop_last() =~= h.take(m - 1));
        assert(h.take(m).last() == h[m - 1]);
    }
}

proof fn lemma_set_positions_prefix(h: Seq<u64>, n: int, a: int, m: int)
    requires
        0 <= a <= m <= h.len(),
    ensures
        set_positions(h, n, a).len() <= set_positions(h, n, m).len(),
        forall|p: int|
            0 <= p < set_positions(h, n, a).len() ==> set_positions(h, n, m)[p] == set_positions(
                h,
                n,
                a,
            )[p],
    decreases m,
{
    if a < m {
        lemma_set_positions_prefix(h, n, a, m - 1);
    }
}

proof fn lemma_set_positions_segment(h: Seq<u64>, n: int, j: int, m: int)
    requires
        0 < n <= u64::MAX,
        0 <= j,
        j * n <= m <= j * n + n,
        m <= h.len(),
        0 <= j * n,
    ensures
        ({
            let q = set_positions(h, n, m);
            let s = set_positions(h, n, j * n).len();
            &&& s <= q.len()
            &&& forall|p: int|
                s <= p < q.len() ==> (#[trigger] q[p]) < m - j * n && h[j * n + q[p]] == 1
            &&& forall|p: int| s < p < q.len() ==> q[p - 1] < #[trigger] q[p]
            &&& forall|c: int|
                0 <= c < m - j * n && #[trigger] h[j * n + c] == 1 ==> exists|p: int|
                    s <= p < q.len() && #[trigger] q[p] == c
        }),
    decreases m - j * n,
{
    let q = set_positions(h, n, m);
    let s = set_positions(h, n, j * n).len();
    if m > j * n {
        lemma_set_positions_segment(h, n, j, m - 1);
        let old_q = set_positions(h, n, m - 1);
        let last = m - 1 - j * n;
        vstd::arithmetic::div_mod::lemma_fundamental_div_mod_converse(m - 1, n, j, last);
        assert forall|c: int| 0 <= c < m - j * n && #[trigger] h[j * n + c] == 1 implies exists|
            p: int,
        |
            s <= p < q.len() && #[trigger] q[p] == c by {
            if c < last {
                let p = choose|p: int| s <= p < old_q.len() && #[trigger] old_q[p] == c;
                assert(q[p] == c);
            } else {
                assert(q[q.len() - 1] == c);
            }
        }
        assert forall|p: int| s <= p < q.len() implies (#[trigger] q[p]) < m - j * n && h[j * n
            + q[p]] == 1 by {
            if p < old_q.len() {
                assert(q[p] == old_q[p]);
            }
        }
        assert forall|p: int| s < p < q.len() implies q[p - 1] < #[trigger] q[p] by {
            assert(q[p - 1] == old_q[p - 1]);
            if p < old_q.len() {
                assert(q[p] == old_q[p]);
            }
        }
    }
}

proof fn lemma_packed_segment(h: Seq<u64>, b: Seq<u64>, n: int, k: int, omega: int, j: int)
    requires
        0 < n <= u64::MAX,
        0 <= j < k,
        h.len() == k * n,
        all_bits(h),
        weight_of(h) <= omega <= u64::MAX,
        b == packed_of(h, n, k, omega),
    ensures
        endpoint_ok(b, omega, j),
        segment_order_ok(b, omega, j, omega),
        endpoint(b, omega, j) <= weight_of(h),
        forall|p: int| in_segment(b, omega, j, p) ==> (#[trigger] b[p]) < n,
        forall|c: int| 0 <= c < n ==> #[trigger] hint_coeff(b, omega, j, c) == h[j * n + c],
{
    let total = k * n;
    lemma_flat_index(j, k, 0, n);
    let (a, e) = (j * n, j * n + n);
    assert((j + 1) * n == e);
    let all = set_positions(h, n, total);
    assert(a >= 0) by (nonlinear_arith)
        requires
            a == j * n,
            j >= 0,
            n > 0,
    ;
    lemma_set_positions_len(h, n, a);
    lemma_set_positions_len(h, n, e);
    lemma_set_positions_len(h, n, total);
    assert(h.take(total) =~= h);
    lemma_set_positions_prefix(h, n, a, e);
    lemma_set_positions_prefix(h, n, e, total);
    lemma_set_positions_segment(h, n, j, e);
    let q = set_positions(h, n, e);
    let s = set_positions(h, n, a).len() as int;
    assert(endpoint(b, omega, j) == q.len());
    assert(segment_start(b, omega, j) == s) by {
        if j == 0 {
            assert(h.take(0) =~= Seq::empty());
        } else {
            assert((j - 1 + 1) * n == a);
        }
    }
    assert forall|p: int| 0 <= p < q.len() implies b[p] == q[p] by {
        assert(all[p] == q[p]);
    }
    assert forall|p: int| 0 <= p < omega implies #[trigger] order_ok_at(b, omega, j, p) by {
        if s < p < q.len() {
            assert(q[p - 1] < q[p]);
        }
    }
    assert forall|p: int| in_segment(b, omega, j, p) implies (#[trigger] b[p]) < n by {
        assert(q[p] < n);
    }
    assert forall|c: int| 0 <= c < n implies #[trigger] hint_coeff(b, omega, j, c) == h[j * n
        + c] by {
        let i = j * n + c;
        assert(h[i] <= 1);
        if h[i] == 1 {
            let p = choose|p: int| s <= p < q.len() && #[trigger] q[p] == c;
            assert(in_segment(b, omega, j, p) && b[p] == c);
        }
        if sets_coeff(b, omega, j, c, omega) {
            let p = choose|p: int|
                0 <= p < omega && in_segment(b, omega, j, p) && #[trigger] b[p] == c;
            assert(q[p] < n && h[j * n + q[p]] == 1);
        }
    }
}

/// The packed form of a hint: the positions of its set coefficients polynomial by polynomial, zeros up
/// to `omega`, then for each polynomial the number of positions up to its end.
spec fn packed_of(h: Seq<u64>, n: int, k: int, omega: int) -> Seq<u64> {
    let all = set_positions(h, n, k * n);
    Seq::new(
        (omega + k) as nat,
        |i: int|
            if i < omega {
                if i < all.len() {
                    all[i]
                } else {
                    0
                }
            } else {
                set_positions(h, n, (i - omega + 1) * n).len() as u64
            },
    )
}

/// Every hint of at most `omega` set coefficients has a canonical packed form.
pub proof fn lemma_packed_form_exists(h: Seq<u64>, n: int, k: int, omega: int) -> (b: Seq<u64>)
    requires
        0 < n <= u64::MAX,
        0 < k,
        h.len() == k * n,
        all_bits(h),
        weight_of(h) <= omega <= u64::MAX,
    ensures
        b.len() == omega + k,
        hint_canonical(b, n, k, omega),
        expanded_hint(b, n, k, omega) == h,
{
    let b = packed_of(h, n, k, omega);
    let total = k * n;
    lemma_set_positions_len(h, n, total);
    assert(h.take(total) =~= h);
    let all = set_positions(h, n, total);
    assert(omega >= 0);
    assert forall|j: int| 0 <= j < k implies #[trigger] endpoint_ok(b, omega, j) by {
        lemma_packed_segment(h, b, n, k, omega, j);
    }
    assert forall|j: int| 0 <= j < k implies #[trigger] segment_order_ok(
        b,
        omega,
        j,
        omega,
    ) by {
        lemma_packed_segment(h, b, n, k, omega, j);
    }
    assert((k - 1 + 1) * n == total);
    assert(endpoint(b, omega, k - 1) == all.len());
    assert forall|p: int| 0 <= p < omega implies #[trigger] position_ok(b, n, k, omega, p) by {
        if p < all.len() {
            lemma_all_positions_small(h, n, total, p);
        }
    }
    let d = expanded_hint(b, n, k, omega);
    assert forall|i: int| 0 <= i < total implies d[i] == h[i] by {
        let (j, c) = (i / n, i % n);
        vstd::arithmetic::div_mod::lemma_fundamental_div_mod(i, n);
        vstd::arithmetic::div_mod::lemma_mod_bound(i, n);
        assert(n * j == j * n) by (nonlinear_arith);
        assert(0 <= j < k) by (nonlinear_arith)
            requires
                0 <= i < k * n,
                i == j * n + c,
                0 <= c < n,
        ;
        lemma_packed_segment(h, b, n, k, omega, j);
        assert(hint_coeff(b, omega, j, c) == h[j * n + c]);
    }
    assert(d =~= h);
    b
}

proof fn lemma_all_positions_small(h: Seq<u64>, n: int, m: int, p: int)
    requires
        0 < n <= u64::MAX,
        0 <= p < set_positions(h, n, m).len(),
    ensures
        set_positions(h, n, m)[p] < n,
    decreases m,
{
    if m > 0 {
        vstd::arithmetic::div_mod::lemma_mod_bound(m - 1, n);
        if p < set_positions(h, n, m - 1).len() {
            lemma_all_positions_small(h, n, m - 1, p);
        }
    }
}

} // verus!
