//! Finite sums over a binary field.
use crate::field::BinaryField;
use vstd::prelude::*;

verus! {

/// `f(0) + ... + f(n - 1)`.
pub open spec fn sum<F: BinaryField>(f: spec_fn(int) -> F, n: nat) -> F
    decreases n,
{
    if n == 0 {
        F::zero_of()
    } else {
        sum(f, (n - 1) as nat).plus(f(n - 1))
    }
}

/// The value where the condition holds, else zero.
pub open spec fn keep_if<F: BinaryField>(c: bool, v: F) -> F {
    if c {
        v
    } else {
        F::zero_of()
    }
}

/// Zero is neutral on either side.
pub proof fn lemma_zero<F: BinaryField>(a: F)
    ensures
        a.plus(F::zero_of()) == a,
        F::zero_of().plus(a) == a,
        a.times(F::zero_of()) == F::zero_of(),
        F::zero_of().times(a) == F::zero_of(),
        a.times(F::one_of()) == a,
        F::one_of().times(a) == a,
{
    F::lemma_plus(a, F::zero_of(), a);
    F::lemma_times(a, F::zero_of(), a);
    F::lemma_times(a, F::one_of(), a);
}

/// The two middle terms of a sum of four change places.
pub proof fn lemma_plus_swap<F: BinaryField>(a: F, b: F, c: F, d: F)
    ensures
        a.plus(b).plus(c.plus(d)) == a.plus(c).plus(b.plus(d)),
{
    F::lemma_plus(a, b, c.plus(d));
    F::lemma_plus(b, c, d);
    F::lemma_plus(b, c, c);
    F::lemma_plus(c, b, d);
    F::lemma_plus(a, c, b.plus(d));
}

/// The two middle factors of a product of four change places.
pub proof fn lemma_times_swap<F: BinaryField>(a: F, b: F, c: F, d: F)
    ensures
        a.times(b).times(c.times(d)) == a.times(c).times(b.times(d)),
{
    F::lemma_times(a, b, c.times(d));
    F::lemma_times(b, c, d);
    F::lemma_times(b, c, c);
    F::lemma_times(c, b, d);
    F::lemma_times(a, c, b.times(d));
}

/// Distribution from the right.
pub proof fn lemma_distr<F: BinaryField>(a: F, b: F, c: F)
    ensures
        a.plus(b).times(c) == a.times(c).plus(b.times(c)),
        c.times(a.plus(b)) == c.times(a).plus(c.times(b)),
{
    F::lemma_times(c, a, b);
    F::lemma_times(a.plus(b), c, c);
    F::lemma_times(a, c, c);
    F::lemma_times(b, c, c);
}

/// Sums of equal terms are equal.
pub proof fn lemma_sum_ext<F: BinaryField>(f: spec_fn(int) -> F, g: spec_fn(int) -> F, n: nat)
    requires
        forall|i: int| 0 <= i < n ==> #[trigger] f(i) == g(i),
    ensures
        sum(f, n) == sum(g, n),
    decreases n,
{
    if n > 0 {
        lemma_sum_ext(f, g, (n - 1) as nat);
        assert(f(n - 1) == g(n - 1));
    }
}

/// A sum of zeros is zero.
pub proof fn lemma_sum_zero<F: BinaryField>(f: spec_fn(int) -> F, n: nat)
    requires
        forall|i: int| 0 <= i < n ==> #[trigger] f(i) == F::zero_of(),
    ensures
        sum(f, n) == F::zero_of(),
    decreases n,
{
    if n > 0 {
        lemma_sum_zero(f, (n - 1) as nat);
        lemma_zero(F::zero_of());
        assert(f(n - 1) == F::zero_of());
    }
}

/// The sum of two sums.
pub proof fn lemma_sum_plus<F: BinaryField>(f: spec_fn(int) -> F, g: spec_fn(int) -> F, n: nat)
    ensures
        sum(|i: int| f(i).plus(g(i)), n) == sum(f, n).plus(sum(g, n)),
    decreases n,
{
    let h = |i: int| f(i).plus(g(i));
    if n == 0 {
        lemma_zero(F::zero_of());
    } else {
        let m = (n - 1) as nat;
        lemma_sum_plus(f, g, m);
        assert(sum(h, n) == sum(h, m).plus(h(m as int)));
        lemma_plus_swap(sum(f, m), sum(g, m), f(m as int), g(m as int));
    }
}

/// A factor moves out of a sum.
pub proof fn lemma_sum_scale<F: BinaryField>(c: F, f: spec_fn(int) -> F, n: nat)
    ensures
        sum(|i: int| c.times(f(i)), n) == c.times(sum(f, n)),
    decreases n,
{
    let h = |i: int| c.times(f(i));
    if n == 0 {
        lemma_zero(c);
    } else {
        let m = (n - 1) as nat;
        lemma_sum_scale(c, f, m);
        assert(sum(h, n) == sum(h, m).plus(h(m as int)));
        lemma_distr(sum(f, m), f(m as int), c);
    }
}

/// A sum of sums may be taken in either order.
pub proof fn lemma_sum_exchange<F: BinaryField>(f: spec_fn(int, int) -> F, n: nat, m: nat)
    ensures
        sum(|i: int| sum(|j: int| f(i, j), m), n) == sum(|j: int| sum(|i: int| f(i, j), n), m),
    decreases n,
{
    let rows = |i: int| sum(|j: int| f(i, j), m);
    let cols = |j: int| sum(|i: int| f(i, j), n);
    if n == 0 {
        assert forall|j: int| 0 <= j < m implies #[trigger] cols(j) == F::zero_of() by {}
        lemma_sum_zero(cols, m);
    } else {
        let k = (n - 1) as nat;
        lemma_sum_exchange(f, k, m);
        let shorter = |j: int| sum(|i: int| f(i, j), k);
        let last = |j: int| f(k as int, j);
        lemma_sum_plus(shorter, last, m);
        let both = |j: int| shorter(j).plus(last(j));
        assert forall|j: int| 0 <= j < m implies #[trigger] cols(j) == both(j) by {
            assert(cols(j) == sum(|i: int| f(i, j), k).plus((|i: int| f(i, j))(k as int)));
        }
        lemma_sum_ext(cols, both, m);
        assert(sum(rows, n) == sum(rows, k).plus(rows(k as int)));
        assert((|j: int| f(k as int, j)) =~= last);
    }
}

/// A sum splits at any point.
pub proof fn lemma_sum_split<F: BinaryField>(f: spec_fn(int) -> F, n: nat, m: nat)
    ensures
        sum(f, n + m) == sum(f, n).plus(sum(|i: int| f(n + i), m)),
    decreases m,
{
    let g = |i: int| f(n + i);
    if m == 0 {
        lemma_zero(sum(f, n));
    } else {
        let k = (m - 1) as nat;
        lemma_sum_split(f, n, k);
        assert(sum(f, n + m) == sum(f, n + k).plus(f((n + k) as int)));
        assert(sum(g, m) == sum(g, k).plus(g(k as int)));
        F::lemma_plus(sum(f, n), sum(g, k), g(k as int));
    }
}

/// A sum over `n * m` indices is a sum over `n` blocks of `m`.
pub proof fn lemma_sum_blocks<F: BinaryField>(f: spec_fn(int) -> F, n: nat, m: nat)
    ensures
        sum(f, n * m) == sum(|i: int| sum(|j: int| f(i * m + j), m), n),
    decreases n,
{
    let blocks = |i: int| sum(|j: int| f(i * m + j), m);
    if n == 0 {
        assert(0 * m == 0);
    } else {
        let k = (n - 1) as nat;
        lemma_sum_blocks(f, k, m);
        assert(n * m == k * m + m) by (nonlinear_arith)
            requires
                n == k + 1,
        ;
        lemma_sum_split(f, k * m, m);
        assert(sum(blocks, n) == sum(blocks, k).plus(blocks(k as int)));
        lemma_sum_ext(|i: int| f((k * m) + i), |j: int| f(k as int * m + j), m);
    }
}

/// A sum with one nonzero term is that term.
pub proof fn lemma_sum_single<F: BinaryField>(f: spec_fn(int) -> F, k: int, n: nat)
    requires
        0 <= k < n,
        forall|i: int| 0 <= i < n && i != k ==> #[trigger] f(i) == F::zero_of(),
    ensures
        sum(f, n) == f(k),
    decreases n,
{
    let m = (n - 1) as nat;
    if k == m {
        lemma_sum_zero(f, m);
        lemma_zero(f(k));
    } else {
        lemma_sum_single(f, k, m);
        assert(f(m as int) == F::zero_of());
        lemma_zero(f(k));
    }
}

/// Zeros at the end of a sum may be dropped.
pub proof fn lemma_sum_tail<F: BinaryField>(f: spec_fn(int) -> F, n: nat, m: nat)
    requires
        n <= m,
        forall|i: int| n <= i < m ==> #[trigger] f(i) == F::zero_of(),
    ensures
        sum(f, m) == sum(f, n),
    decreases m,
{
    if n < m {
        lemma_sum_tail(f, n, (m - 1) as nat);
        assert(f(m - 1) == F::zero_of());
        lemma_zero(sum(f, n));
    }
}

/// The inner product of two lists.
pub open spec fn inner<F: BinaryField>(a: Seq<F>, b: Seq<F>) -> F {
    sum(|i: int| a[i].times(b[i]), a.len())
}

/// The inner product of two lists of the same length.
pub fn inner_product<F: BinaryField>(a: &[F], b: &[F]) -> (r: F)
    requires
        a@.len() == b@.len(),
    ensures
        r == inner(a@, b@),
{
    let ghost f = |i: int| a@[i].times(b@[i]);
    let mut acc = F::zero();
    let n: usize = a.len();
    for i in 0..n
        invariant
            n == a@.len(),
            n == b@.len(),
            f == (|i: int| a@[i].times(b@[i])),
            acc == sum(f, i as nat),
    {
        acc = acc.add(a[i].mul(b[i]));
    }
    acc
}

/// `c^n`.
pub open spec fn pow_of<F: BinaryField>(c: F, n: nat) -> F
    decreases n,
{
    if n == 0 {
        F::one_of()
    } else {
        pow_of(c, (n - 1) as nat).times(c)
    }
}

/// The powers `c^1, ..., c^n`.
pub fn powers_from_one<F: BinaryField>(c: F, n: usize) -> (r: Vec<F>)
    ensures
        r@ == Seq::new(n as nat, |i: int| pow_of(c, (i + 1) as nat)),
{
    let mut out: Vec<F> = Vec::new();
    let mut cur = F::one();
    for i in 0..n
        invariant
            out@.len() == i,
            cur == pow_of(c, i as nat),
            forall|k: int| 0 <= k < i ==> #[trigger] out@[k] == pow_of(c, (k + 1) as nat),
    {
        cur = cur.mul(c);
        out.push(cur);
    }
    assert(out@ =~= Seq::new(n as nat, |i: int| pow_of(c, (i + 1) as nat)));
    out
}

/// The first power is the number, and exponents add up.
pub proof fn lemma_pow_adds<F: BinaryField>(c: F, a: nat, b: nat)
    ensures
        pow_of(c, 1) == c,
        pow_of(c, a + b) == pow_of(c, a).times(pow_of(c, b)),
    decreases b,
{
    lemma_zero(c);
    assert(pow_of(c, 1) == pow_of(c, 0).times(c));
    lemma_zero(pow_of(c, a));
    if b > 0 {
        lemma_pow_adds(c, a, (b - 1) as nat);
        F::lemma_times(pow_of(c, a), pow_of(c, (b - 1) as nat), c);
        assert(a + b - 1 == a + (b - 1) as nat);
    }
}

/// Every pair of entries counts in an inner product: one more pair adds its product.
pub proof fn lemma_inner_grows<F: BinaryField>(a: Seq<F>, b: Seq<F>, x: F, y: F)
    requires
        a.len() == b.len(),
    ensures
        inner(a.push(x), b.push(y)) == inner(a, b).plus(x.times(y)),
        inner(Seq::<F>::empty(), Seq::<F>::empty()) == F::zero_of(),
{
    let n = a.len();
    let (p, q) = (a.push(x), b.push(y));
    lemma_sum_ext(|i: int| p[i].times(q[i]), |i: int| a[i].times(b[i]), n);
}

} // verus!
