//! Polynomials over a binary field: a polynomial with as many roots as coefficients is zero.
use super::sums::{lemma_distr, lemma_plus_swap, lemma_zero, sum};
use crate::field::BinaryField;
use vstd::prelude::*;

verus! {

/// The value at `z` of the polynomial with coefficients `c`, the constant one first.
pub open spec fn poly_eval<F: BinaryField>(c: Seq<F>, z: F) -> F
    decreases c.len(),
{
    if c.len() == 0 {
        F::zero_of()
    } else {
        c[0].plus(z.times(poly_eval(c.skip(1), z)))
    }
}

/// Whether `f` is a polynomial with at most `n` coefficients.
pub open spec fn is_poly<F: BinaryField>(f: spec_fn(F) -> F, n: nat) -> bool {
    exists|c: Seq<F>| #[trigger] represents(c, f) && c.len() <= n
}

/// Whether `c` are coefficients of `f`.
pub open spec fn represents<F: BinaryField>(c: Seq<F>, f: spec_fn(F) -> F) -> bool {
    forall|z: F| #[trigger] poly_eval(c, z) == f(z)
}

/// The sum of two polynomials.
spec fn poly_sum<F: BinaryField>(c: Seq<F>, d: Seq<F>) -> Seq<F>
    decreases c.len(),
{
    if c.len() == 0 {
        d
    } else if d.len() == 0 {
        c
    } else {
        seq![c[0].plus(d[0])] + poly_sum(c.skip(1), d.skip(1))
    }
}

proof fn lemma_poly_sum<F: BinaryField>(c: Seq<F>, d: Seq<F>, z: F)
    ensures
        poly_eval(poly_sum(c, d), z) == poly_eval(c, z).plus(poly_eval(d, z)),
        poly_sum(c, d).len() <= c.len() || poly_sum(c, d).len() <= d.len(),
    decreases c.len(),
{
    if c.len() == 0 {
        lemma_zero(poly_eval(d, z));
    } else if d.len() == 0 {
        lemma_zero(poly_eval(c, z));
    } else {
        let (c1, d1) = (c.skip(1), d.skip(1));
        lemma_poly_sum(c1, d1, z);
        let s = poly_sum(c, d);
        assert(s.skip(1) =~= poly_sum(c1, d1));
        let (e, f) = (poly_eval(c1, z), poly_eval(d1, z));
        lemma_distr(e, f, z);
        lemma_plus_swap(c[0], z.times(e), d[0], z.times(f));
        assert(poly_eval(s, z) == s[0].plus(z.times(poly_eval(s.skip(1), z))));
    }
}

/// A polynomial times a constant.
spec fn poly_scale<F: BinaryField>(c: Seq<F>, a: F) -> Seq<F> {
    Seq::new(c.len(), |i: int| a.times(c[i]))
}

proof fn lemma_poly_scale<F: BinaryField>(c: Seq<F>, a: F, z: F)
    ensures
        poly_eval(poly_scale(c, a), z) == a.times(poly_eval(c, z)),
    decreases c.len(),
{
    lemma_zero(a);
    if c.len() > 0 {
        let s = poly_scale(c, a);
        lemma_poly_scale(c.skip(1), a, z);
        assert(s.skip(1) =~= poly_scale(c.skip(1), a));
        let e = poly_eval(c.skip(1), z);
        F::lemma_times(a, c[0], z.times(e));
        F::lemma_times(z, a, e);
        F::lemma_times(a, z, e);
    }
}

proof fn lemma_poly_shift<F: BinaryField>(c: Seq<F>, z: F)
    ensures
        poly_eval(seq![F::zero_of()] + c, z) == z.times(poly_eval(c, z)),
{
    let s = seq![F::zero_of()] + c;
    assert(s.skip(1) =~= c);
    lemma_zero(z.times(poly_eval(c, z)));
}

/// A constant is a polynomial.
pub proof fn lemma_poly_constant<F: BinaryField>(a: F)
    ensures
        is_poly(|z: F| a, 1),
{
    let c = seq![a];
    let f = |z: F| a;
    assert forall|z: F| #[trigger] poly_eval(c, z) == f(z) by {
        assert(c.skip(1) =~= Seq::<F>::empty());
        assert(poly_eval(c.skip(1), z) == F::zero_of());
        lemma_zero(z);
        lemma_zero(a);
    }
    assert(represents(c, f));
}

/// A polynomial times `z + a` is a polynomial with one more coefficient.
pub proof fn lemma_poly_linear<F: BinaryField>(f: spec_fn(F) -> F, a: F, n: nat)
    requires
        is_poly(f, n),
    ensures
        is_poly(|z: F| f(z).times(z.plus(a)), n + 1),
{
    let c = choose|c: Seq<F>| #[trigger] represents(c, f) && c.len() <= n;
    let shifted = seq![F::zero_of()] + c;
    let d = poly_sum(shifted, poly_scale(c, a));
    let g = |z: F| f(z).times(z.plus(a));
    assert forall|z: F| #[trigger] poly_eval(d, z) == g(z) by {
        let e = poly_eval(c, z);
        assert(e == f(z));
        lemma_poly_sum(shifted, poly_scale(c, a), z);
        lemma_poly_scale(c, a, z);
        lemma_poly_shift(c, z);
        lemma_distr(z, a, e);
        F::lemma_times(z, e, e);
        F::lemma_times(a, e, e);
    }
    lemma_poly_sum(shifted, poly_scale(c, a), a);
    assert(represents(d, g));
}

/// A polynomial times a constant is a polynomial.
pub proof fn lemma_poly_scaled<F: BinaryField>(f: spec_fn(F) -> F, a: F, n: nat)
    requires
        is_poly(f, n),
    ensures
        is_poly(|z: F| f(z).times(a), n),
{
    let c = choose|c: Seq<F>| #[trigger] represents(c, f) && c.len() <= n;
    let d = poly_scale(c, a);
    let g = |z: F| f(z).times(a);
    assert forall|z: F| #[trigger] poly_eval(d, z) == g(z) by {
        assert(poly_eval(c, z) == f(z));
        lemma_poly_scale(c, a, z);
        F::lemma_times(a, f(z), a);
    }
    assert(represents(d, g));
}

/// A sum of polynomials is a polynomial.
pub proof fn lemma_poly_plus<F: BinaryField>(f: spec_fn(F) -> F, g: spec_fn(F) -> F, n: nat)
    requires
        is_poly(f, n),
        is_poly(g, n),
    ensures
        is_poly(|z: F| f(z).plus(g(z)), n),
{
    let c = choose|c: Seq<F>| #[trigger] represents(c, f) && c.len() <= n;
    let d = choose|c: Seq<F>| #[trigger] represents(c, g) && c.len() <= n;
    let s = poly_sum(c, d);
    let h = |z: F| f(z).plus(g(z));
    assert forall|z: F| #[trigger] poly_eval(s, z) == h(z) by {
        assert(poly_eval(c, z) == f(z));
        assert(poly_eval(d, z) == g(z));
        lemma_poly_sum(c, d, z);
    }
    lemma_poly_sum(c, d, F::zero_of());
    assert(represents(s, h));
}

/// Functions with the same values are polynomials alike.
pub proof fn lemma_poly_same<F: BinaryField>(f: spec_fn(F) -> F, g: spec_fn(F) -> F, m: nat, n: nat)
    requires
        is_poly(f, m),
        m <= n,
        forall|z: F| #[trigger] g(z) == f(z),
    ensures
        is_poly(g, n),
{
    let c = choose|c: Seq<F>| #[trigger] represents(c, f) && c.len() <= m;
    assert forall|z: F| #[trigger] poly_eval(c, z) == g(z) by {
        assert(poly_eval(c, z) == f(z));
    }
    assert(represents(c, g));
}

/// The quotient of a polynomial by `z + a`.
spec fn quotient<F: BinaryField>(c: Seq<F>, a: F) -> Seq<F>
    decreases c.len(),
{
    if c.len() <= 1 {
        Seq::empty()
    } else {
        seq![poly_eval(c.skip(1), a)] + quotient(c.skip(1), a)
    }
}

proof fn lemma_quotient<F: BinaryField>(c: Seq<F>, a: F, z: F)
    ensures
        poly_eval(c, z).plus(poly_eval(c, a)) == z.plus(a).times(poly_eval(quotient(c, a), z)),
        c.len() > 0 ==> quotient(c, a).len() == c.len() - 1,
    decreases c.len(),
{
    let zero = F::zero_of();
    if c.len() == 0 {
        assert(poly_eval(quotient(c, a), z) == zero);
        lemma_zero(zero);
        lemma_zero(z.plus(a));
    } else if c.len() == 1 {
        assert(poly_eval(c.skip(1), z) == zero);
        assert(poly_eval(c.skip(1), a) == zero);
        assert(poly_eval(quotient(c, a), z) == zero);
        lemma_zero(z);
        lemma_zero(a);
        lemma_zero(c[0]);
        lemma_zero(z.plus(a));
        F::lemma_plus(c[0], c[0], c[0]);
    } else {
        let r = c.skip(1);
        lemma_quotient(r, a, z);
        let q1 = quotient(r, a);
        let q = quotient(c, a);
        assert(q.skip(1) =~= q1);
        let (ez, ea, eq) = (poly_eval(r, z), poly_eval(r, a), poly_eval(q1, z));
        let d = z.plus(a);
        // ez = ea + d * eq
        F::lemma_plus(ez, ea, ea);
        lemma_zero(ez);
        F::lemma_plus(ea, d.times(eq), ea);
        assert(ez == ea.plus(d.times(eq)));
        // z * ez + a * ea = (z * ea + a * ea) + z * (d * eq) = d * (ea + z * eq)
        let t = z.times(d.times(eq));
        lemma_plus_swap(c[0], z.times(ez), c[0], a.times(ea));
        F::lemma_plus(c[0], c[0], c[0]);
        lemma_zero(z.times(ez).plus(a.times(ea)));
        assert(poly_eval(c, z).plus(poly_eval(c, a)) == z.times(ez).plus(a.times(ea)));
        lemma_distr(ea, d.times(eq), z);
        assert(z.times(ez) == z.times(ea).plus(t));
        F::lemma_plus(z.times(ea), t, a.times(ea));
        F::lemma_plus(t, a.times(ea), a.times(ea));
        F::lemma_plus(z.times(ea), a.times(ea), t);
        lemma_distr(z, a, ea);
        assert(z.times(ez).plus(a.times(ea)) == d.times(ea).plus(t));
        F::lemma_times(z, d, eq);
        F::lemma_times(d, z, eq);
        assert(t == d.times(z.times(eq)));
        lemma_distr(ea, z.times(eq), d);
        assert(poly_eval(q, z) == q[0].plus(z.times(poly_eval(q.skip(1), z))));
    }
}

/// A product is zero only where a factor is.
pub proof fn lemma_no_zero_divisors<F: BinaryField>(a: F, b: F)
    requires
        a.times(b) == F::zero_of(),
    ensures
        a == F::zero_of() || b == F::zero_of(),
{
    if a != F::zero_of() {
        F::lemma_inverse(a);
        F::lemma_times(a.inverted(), a, b);
        F::lemma_times(a, a.inverted(), b);
        lemma_zero(b);
        lemma_zero(a.inverted());
    }
}

/// Elements whose sum is zero are equal.
pub proof fn lemma_equal<F: BinaryField>(a: F, b: F)
    ensures
        (a.plus(b) == F::zero_of()) == (a == b),
{
    F::lemma_plus(a, b, b);
    F::lemma_plus(b, b, b);
    lemma_zero(a);
    lemma_zero(b);
    F::lemma_plus(a, a, a);
}

proof fn lemma_roots<F: BinaryField>(c: Seq<F>, xs: Seq<F>, z: F)
    requires
        c.len() <= xs.len(),
        xs.no_duplicates(),
        forall|i: int| 0 <= i < xs.len() ==> poly_eval(c, #[trigger] xs[i]) == F::zero_of(),
    ensures
        poly_eval(c, z) == F::zero_of(),
    decreases c.len(),
{
    if c.len() > 0 {
        let a = xs[0];
        let q = quotient(c, a);
        let rest = xs.skip(1);
        assert(poly_eval(c, a) == F::zero_of());
        assert forall|i: int| 0 <= i < rest.len() implies poly_eval(q, #[trigger] rest[i])
            == F::zero_of() by {
            let b = xs[i + 1];
            lemma_quotient(c, a, b);
            lemma_zero(F::zero_of());
            lemma_no_zero_divisors(b.plus(a), poly_eval(q, b));
            lemma_equal(b, a);
            assert(xs[0] != xs[i + 1]);
        }
        assert(rest.no_duplicates()) by {
            assert forall|i: int, j: int|
                0 <= i < rest.len() && 0 <= j < rest.len() && i != j implies rest[i] != rest[j] by {
                assert(xs[i + 1] != xs[j + 1]);
            }
        }
        lemma_quotient(c, a, z);
        lemma_roots(q, rest, z);
        lemma_zero(z.plus(a));
        lemma_zero(poly_eval(c, z));
    }
}

/// A polynomial with at most as many coefficients as it has roots is zero everywhere.
pub proof fn lemma_poly_zero<F: BinaryField>(f: spec_fn(F) -> F, xs: Seq<F>, z: F)
    requires
        is_poly(f, xs.len()),
        xs.no_duplicates(),
        forall|i: int| 0 <= i < xs.len() ==> f(#[trigger] xs[i]) == F::zero_of(),
    ensures
        f(z) == F::zero_of(),
{
    let c = choose|c: Seq<F>| #[trigger] represents(c, f) && c.len() <= xs.len();
    assert forall|i: int| 0 <= i < xs.len() implies poly_eval(c, #[trigger] xs[i])
        == F::zero_of() by {
        assert(poly_eval(c, xs[i]) == f(xs[i]));
    }
    lemma_roots(c, xs, z);
    assert(poly_eval(c, z) == f(z));
}

} // verus!
