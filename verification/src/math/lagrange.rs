//! Lagrange interpolation over a list of points.
use super::poly::{
    is_poly, lemma_equal, lemma_no_zero_divisors, lemma_poly_constant, lemma_poly_linear,
    lemma_poly_plus, lemma_poly_same, lemma_poly_scaled, lemma_poly_zero,
};
use super::subspace::{subspace_point, subspace_points, BinarySubspace};
use super::sums::{inner_product, lemma_sum_ext, lemma_sum_single, lemma_zero, sum};
use crate::field::{BinaryField, ExtensionOf};
use vstd::arithmetic::power2::pow2;
use vstd::prelude::*;

verus! {

/// The product of `z + xs[j]` for `j` from `lo` up to `hi`.
pub open spec fn product_range<F: BinaryField>(z: F, xs: Seq<F>, lo: int, hi: int) -> F
    decreases hi - lo,
{
    if lo >= hi {
        F::one_of()
    } else {
        product_range(z, xs, lo, hi - 1).times(z.plus(xs[hi - 1]))
    }
}

/// The product of `z + xs[j]` for all `j` but `i`.
pub open spec fn product_but<F: BinaryField>(z: F, xs: Seq<F>, i: int) -> F {
    product_range(z, xs, 0, i).times(product_range(z, xs, i + 1, xs.len() as int))
}

/// The Lagrange polynomial of point `i` at `z`: the product of `z + xs[j]` over the other points,
/// divided by its value at `xs[i]`.
pub open spec fn lagrange<F: BinaryField>(xs: Seq<F>, i: int, z: F) -> F {
    product_but(z, xs, i).times(product_but(xs[i], xs, i).inverted())
}

/// The Lagrange polynomials of all points at `z`.
pub open spec fn lagrange_of<F: BinaryField>(xs: Seq<F>, z: F) -> Seq<F> {
    Seq::new(xs.len(), |i: int| lagrange(xs, i, z))
}

/// A product can be extended at its front.
proof fn lemma_product_front<F: BinaryField>(z: F, xs: Seq<F>, lo: int, hi: int)
    requires
        lo < hi,
    ensures
        product_range(z, xs, lo, hi) == z.plus(xs[lo]).times(product_range(z, xs, lo + 1, hi)),
    decreases hi - lo,
{
    let front = z.plus(xs[lo]);
    if lo + 1 == hi {
        lemma_zero(front);
        assert(product_range(z, xs, lo, lo) == F::one_of());
        assert(product_range(z, xs, lo, hi) == F::one_of().times(front));
        assert(product_range(z, xs, hi, hi) == F::one_of());
    } else {
        lemma_product_front(z, xs, lo, hi - 1);
        F::lemma_times(front, product_range(z, xs, lo + 1, hi - 1), z.plus(xs[hi - 1]));
    }
}

/// A product with a zero factor is zero.
proof fn lemma_product_zero<F: BinaryField>(z: F, xs: Seq<F>, lo: int, hi: int, j: int)
    requires
        lo <= j < hi,
        z == xs[j],
    ensures
        product_range(z, xs, lo, hi) == F::zero_of(),
    decreases hi - lo,
{
    if j == hi - 1 {
        F::lemma_plus(z, z, z);
        lemma_zero(product_range(z, xs, lo, hi - 1));
    } else {
        lemma_product_zero(z, xs, lo, hi - 1, j);
        lemma_zero(z.plus(xs[hi - 1]));
    }
}

/// The Lagrange polynomial of a point vanishes at every other point.
pub proof fn lemma_lagrange_vanishes<F: BinaryField>(xs: Seq<F>, i: int, j: int)
    requires
        0 <= i < xs.len(),
        0 <= j < xs.len(),
        i != j,
    ensures
        lagrange(xs, i, xs[j]) == F::zero_of(),
{
    let (a, b) = (
        product_range(xs[j], xs, 0, i),
        product_range(xs[j], xs, i + 1, xs.len() as int),
    );
    if j < i {
        lemma_product_zero(xs[j], xs, 0, i, j);
        lemma_zero(b);
    } else {
        lemma_product_zero(xs[j], xs, i + 1, xs.len() as int, j);
        lemma_zero(a);
    }
    lemma_zero(product_but(xs[i], xs, i).inverted());
}

/// A product of nonzero factors is not zero.
proof fn lemma_product_nonzero<F: BinaryField>(z: F, xs: Seq<F>, lo: int, hi: int)
    requires
        forall|j: int| lo <= j < hi ==> #[trigger] xs[j] != z,
    ensures
        product_range(z, xs, lo, hi) != F::zero_of(),
    decreases hi - lo,
{
    F::lemma_inverse(F::zero_of());
    if lo < hi {
        lemma_product_nonzero(z, xs, lo, hi - 1);
        lemma_equal(z, xs[hi - 1]);
        assert(xs[hi - 1] != z);
        if product_range(z, xs, lo, hi) == F::zero_of() {
            lemma_no_zero_divisors(product_range(z, xs, lo, hi - 1), z.plus(xs[hi - 1]));
        }
    }
}

/// The Lagrange polynomial of a point is one there, where the points differ.
pub proof fn lemma_lagrange_one<F: BinaryField>(xs: Seq<F>, i: int)
    requires
        0 <= i < xs.len(),
        xs.no_duplicates(),
    ensures
        lagrange(xs, i, xs[i]) == F::one_of(),
{
    let n = xs.len() as int;
    lemma_product_nonzero(xs[i], xs, 0, i);
    lemma_product_nonzero(xs[i], xs, i + 1, n);
    let d = product_but(xs[i], xs, i);
    if d == F::zero_of() {
        lemma_no_zero_divisors(
            product_range(xs[i], xs, 0, i),
            product_range(xs[i], xs, i + 1, n),
        );
    }
    F::lemma_inverse(d);
}

/// A polynomial times a product of linear factors is a polynomial.
proof fn lemma_times_product_poly<F: BinaryField>(
    f: spec_fn(F) -> F,
    xs: Seq<F>,
    lo: int,
    hi: int,
    m: nat,
)
    requires
        is_poly(f, m),
        lo <= hi,
    ensures
        is_poly(|z: F| f(z).times(product_range(z, xs, lo, hi)), (m + hi - lo) as nat),
    decreases hi - lo,
{
    let g = |z: F| f(z).times(product_range(z, xs, lo, hi));
    if lo == hi {
        assert forall|z: F| #[trigger] g(z) == f(z) by {
            lemma_zero(f(z));
        }
        lemma_poly_same(f, g, m, m);
    } else {
        lemma_times_product_poly(f, xs, lo, hi - 1, m);
        let h = |z: F| f(z).times(product_range(z, xs, lo, hi - 1));
        let k = (m + hi - 1 - lo) as nat;
        lemma_poly_linear(h, xs[hi - 1], k);
        let hl = |z: F| h(z).times(z.plus(xs[hi - 1]));
        assert forall|z: F| #[trigger] g(z) == hl(z) by {
            F::lemma_times(f(z), product_range(z, xs, lo, hi - 1), z.plus(xs[hi - 1]));
        }
        lemma_poly_same(hl, g, k + 1, (m + hi - lo) as nat);
    }
}

/// A polynomial times a Lagrange polynomial is a polynomial.
pub proof fn lemma_times_lagrange_poly<F: BinaryField>(
    f: spec_fn(F) -> F,
    xs: Seq<F>,
    i: int,
    m: nat,
)
    requires
        is_poly(f, m),
        0 <= i < xs.len(),
    ensures
        is_poly(|z: F| f(z).times(lagrange(xs, i, z)), (m + xs.len() - 1) as nat),
{
    let n = xs.len() as int;
    let c = product_but(xs[i], xs, i).inverted();
    lemma_times_product_poly(f, xs, 0, i, m);
    let f1 = |z: F| f(z).times(product_range(z, xs, 0, i));
    lemma_times_product_poly(f1, xs, i + 1, n, (m + i) as nat);
    let f2 = |z: F| f1(z).times(product_range(z, xs, i + 1, n));
    let len = (m + n - 1) as nat;
    lemma_poly_scaled(f2, c, (m + i + n - (i + 1)) as nat);
    let f3 = |z: F| f2(z).times(c);
    let g = |z: F| f(z).times(lagrange(xs, i, z));
    assert forall|z: F| #[trigger] g(z) == f3(z) by {
        let (a, b) = (product_range(z, xs, 0, i), product_range(z, xs, i + 1, n));
        F::lemma_times(f(z), a, b);
        F::lemma_times(f(z), a.times(b), c);
    }
    lemma_poly_same(f3, g, (m + i + n - (i + 1)) as nat, len);
}

/// A Lagrange polynomial has as many coefficients as there are points.
pub proof fn lemma_lagrange_poly<F: BinaryField>(xs: Seq<F>, i: int)
    requires
        0 <= i < xs.len(),
    ensures
        is_poly(|z: F| lagrange(xs, i, z), xs.len()),
{
    let one = |z: F| F::one_of();
    lemma_poly_constant(F::one_of());
    lemma_times_lagrange_poly(one, xs, i, 1);
    let f = |z: F| one(z).times(lagrange(xs, i, z));
    let g = |z: F| lagrange(xs, i, z);
    assert forall|z: F| #[trigger] g(z) == f(z) by {
        lemma_zero(lagrange(xs, i, z));
    }
    lemma_poly_same(f, g, xs.len(), xs.len());
}

/// The first `m` terms of the interpolation of `f`.
spec fn interpolation<F: BinaryField>(f: spec_fn(F) -> F, xs: Seq<F>, z: F, m: nat) -> F {
    sum(|i: int| lagrange(xs, i, z).times(f(xs[i])), m)
}

proof fn lemma_interpolation_poly<F: BinaryField>(f: spec_fn(F) -> F, xs: Seq<F>, m: nat)
    requires
        m <= xs.len(),
        xs.len() > 0,
    ensures
        is_poly(|z: F| interpolation(f, xs, z, m), xs.len()),
    decreases m,
{
    let g = |z: F| interpolation(f, xs, z, m);
    if m == 0 {
        let zero = |z: F| F::zero_of();
        lemma_poly_constant(F::zero_of());
        lemma_poly_same(zero, g, 1, xs.len());
    } else {
        let k = (m - 1) as nat;
        lemma_interpolation_poly(f, xs, k);
        let prev = |z: F| interpolation(f, xs, z, k);
        lemma_lagrange_poly(xs, k as int);
        let l = |z: F| lagrange(xs, k as int, z);
        lemma_poly_scaled(l, f(xs[k as int]), xs.len());
        let term = |z: F| l(z).times(f(xs[k as int]));
        lemma_poly_plus(prev, term, xs.len());
        let both = |z: F| prev(z).plus(term(z));
        assert forall|z: F| #[trigger] g(z) == both(z) by {}
        lemma_poly_same(both, g, xs.len(), xs.len());
    }
}

/// A polynomial with at most as many coefficients as there are different points is what the
/// Lagrange polynomials make of its values there.
pub proof fn lemma_interpolation<F: BinaryField>(f: spec_fn(F) -> F, xs: Seq<F>, z: F)
    requires
        is_poly(f, xs.len()),
        xs.no_duplicates(),
        xs.len() > 0,
    ensures
        f(z) == sum(|i: int| lagrange(xs, i, z).times(f(xs[i])), xs.len()),
{
    let n = xs.len();
    lemma_interpolation_poly(f, xs, n);
    let g = |y: F| interpolation(f, xs, y, n);
    lemma_poly_plus(f, g, n);
    let d = |y: F| f(y).plus(g(y));
    assert forall|j: int| 0 <= j < n implies d(#[trigger] xs[j]) == F::zero_of() by {
        let t = |i: int| lagrange(xs, i, xs[j]).times(f(xs[i]));
        assert forall|i: int| 0 <= i < n && i != j implies #[trigger] t(i) == F::zero_of() by {
            lemma_lagrange_vanishes(xs, i, j);
            lemma_zero(f(xs[i]));
        }
        lemma_sum_single(t, j, n);
        lemma_lagrange_one(xs, j);
        lemma_zero(f(xs[j]));
        lemma_equal(f(xs[j]), f(xs[j]));
    }
    lemma_poly_zero(d, xs, z);
    lemma_equal(f(z), g(z));
}

/// The products of all factors `z + xs[j]` but one, for every point.
fn products_but<F: BinaryField>(z: F, xs: &Vec<F>) -> (r: Vec<F>)
    ensures
        r@ == Seq::new(xs@.len(), |i: int| product_but(z, xs@, i)),
{
    let n: usize = xs.len();
    let mut prefixes: Vec<F> = Vec::new();
    let mut acc = F::one();
    for i in 0..n
        invariant
            n == xs@.len(),
            acc == product_range(z, xs@, 0, i as int),
            prefixes@.len() == i,
            forall|k: int| 0 <= k < i ==> #[trigger] prefixes@[k] == product_range(z, xs@, 0, k),
    {
        prefixes.push(acc);
        acc = acc.mul(z.add(xs[i]));
    }
    let mut suffix = F::one();
    let mut i: usize = n;
    while i > 0
        invariant
            n == xs@.len(),
            i <= n,
            suffix == product_range(z, xs@, i as int, n as int),
            prefixes@.len() == n,
            forall|k: int| 0 <= k < i ==> #[trigger] prefixes@[k] == product_range(z, xs@, 0, k),
            forall|k: int| i <= k < n ==> #[trigger] prefixes@[k] == product_but(z, xs@, k),
        decreases i,
    {
        i = i - 1;
        let p = prefixes[i].mul(suffix);
        prefixes.set(i, p);
        proof {
            lemma_product_front(z, xs@, i as int, n as int);
        }
        suffix = z.add(xs[i]).mul(suffix);
    }
    assert(prefixes@ =~= Seq::new(xs@.len(), |i: int| product_but(z, xs@, i)));
    prefixes
}

/// The factor by which each Lagrange polynomial is scaled.
pub open spec fn weight_of<F: BinaryField>(xs: Seq<F>, i: int) -> F {
    product_but(xs[i], xs, i).inverted()
}

/// The factors by which the Lagrange polynomials are scaled.
pub fn lagrange_weights<F: BinaryField>(xs: &Vec<F>) -> (r: Vec<F>)
    ensures
        r@ == Seq::new(xs@.len(), |i: int| weight_of(xs@, i)),
{
    let n: usize = xs.len();
    let mut r: Vec<F> = Vec::new();
    for i in 0..n
        invariant
            n == xs@.len(),
            r@.len() == i,
            forall|k: int| 0 <= k < i ==> #[trigger] r@[k] == weight_of(xs@, k),
    {
        let products = products_but(xs[i], xs);
        r.push(products[i].invert_or_zero());
    }
    assert(r@ =~= Seq::new(xs@.len(), |i: int| weight_of(xs@, i)));
    r
}

/// The Lagrange polynomials at `z`, from the points and their weights.
pub fn lagrange_evals_with_weights<F: BinaryField>(xs: &Vec<F>, weights: &Vec<F>, z: F) -> (r: Vec<
    F,
>)
    requires
        weights@ == Seq::new(xs@.len(), |i: int| weight_of(xs@, i)),
    ensures
        r@ == lagrange_of(xs@, z),
{
    let n: usize = xs.len();
    let products = products_but(z, xs);
    let mut r: Vec<F> = Vec::new();
    for i in 0..n
        invariant
            n == xs@.len(),
            products@ == Seq::new(xs@.len(), |i: int| product_but(z, xs@, i)),
            weights@ == Seq::new(xs@.len(), |i: int| weight_of(xs@, i)),
            r@.len() == i,
            forall|k: int| 0 <= k < i ==> #[trigger] r@[k] == lagrange(xs@, k, z),
    {
        r.push(products[i].mul(weights[i]));
    }
    assert(r@ =~= lagrange_of(xs@, z));
    r
}

/// The Lagrange polynomials of the points of a subspace at `z`.
pub fn lagrange_evals_scalars<F: BinaryField>(subspace: &BinarySubspace<F>, z: F) -> (r: Vec<F>)
    requires
        pow2(subspace.basis@.len()) <= usize::MAX,
    ensures
        r@ == lagrange_of(subspace_points(subspace.basis@), z),
{
    let points = subspace.points();
    let weights = lagrange_weights(&points);
    lagrange_evals_with_weights(&points, &weights, z)
}

/// The value at `z` of the polynomial that takes the values `evals` on the points of a subspace.
pub open spec fn extrapolated<F: BinaryField>(basis: Seq<F>, evals: Seq<F>, z: F) -> F {
    sum(|i: int| lagrange(subspace_points(basis), i, z).times(evals[i]), evals.len())
}

/// Extrapolates from the points of a subspace.
pub fn extrapolate_over_subspace<F: BinaryField>(
    subspace: &BinarySubspace<F>,
    evals: &[F],
    z: F,
) -> (r: F)
    requires
        pow2(subspace.basis@.len()) <= usize::MAX,
        evals@.len() == pow2(subspace.basis@.len()),
    ensures
        r == extrapolated(subspace.basis@, evals@, z),
{
    let weights = lagrange_evals_scalars(subspace, z);
    let r = inner_product(weights.as_slice(), evals);
    proof {
        let l = lagrange_of(subspace_points(subspace.basis@), z);
        lemma_sum_ext(
            |i: int| l[i].times(evals@[i]),
            |i: int| lagrange(subspace_points(subspace.basis@), i, z).times(evals@[i]),
            evals@.len(),
        );
    }
    r
}

/// The copies of a list of elements.
pub open spec fn embed_all<F: ExtensionOf<S>, S: BinaryField>(xs: Seq<S>) -> Seq<F> {
    Seq::new(xs.len(), |i: int| F::embed_of(xs[i]))
}

/// Embedding keeps inverses and tells elements apart.
pub proof fn lemma_embed_inverted<F: ExtensionOf<S>, S: BinaryField>(a: S, b: S)
    ensures
        F::embed_of(a.inverted()) == F::embed_of(a).inverted(),
        F::embed_of(a) == F::embed_of(b) ==> a == b,
{
    let (zero, one) = (F::zero_of(), F::one_of());
    F::lemma_embed(S::zero_of(), S::zero_of());
    S::lemma_inverse(a);
    F::lemma_inverse(F::embed_of(a));
    F::lemma_inverse(zero);
    if a != S::zero_of() {
        let (e, i, j) = (F::embed_of(a), F::embed_of(a.inverted()), F::embed_of(a).inverted());
        F::lemma_embed(a, a.inverted());
        assert(e.times(i) == one);
        if e == zero {
            lemma_zero(i);
        }
        assert(e.times(j) == one);
        // i = i * (e * j) = (i * e) * j = j
        F::lemma_times(i, e, j);
        F::lemma_times(e, i, j);
        lemma_zero(i);
        lemma_zero(j);
    }
    if F::embed_of(a) == F::embed_of(b) {
        let d = a.plus(b);
        F::lemma_embed(a, b);
        lemma_equal(F::embed_of(a), F::embed_of(b));
        if d != S::zero_of() {
            S::lemma_inverse(d);
            F::lemma_embed(d, d.inverted());
            lemma_zero(F::embed_of(d.inverted()));
        }
        lemma_equal(a, b);
    }
}

proof fn lemma_embed_product<F: ExtensionOf<S>, S: BinaryField>(z: S, xs: Seq<S>, lo: int, hi: int)
    requires
        0 <= lo,
        hi <= xs.len(),
    ensures
        F::embed_of(product_range(z, xs, lo, hi)) == product_range(
            F::embed_of(z),
            embed_all::<F, S>(xs),
            lo,
            hi,
        ),
    decreases hi - lo,
{
    F::lemma_embed(z, z);
    if lo < hi {
        lemma_embed_product::<F, S>(z, xs, lo, hi - 1);
        F::lemma_embed(z, xs[hi - 1]);
        F::lemma_embed(product_range(z, xs, lo, hi - 1), z.plus(xs[hi - 1]));
    }
}

/// Embedding keeps Lagrange polynomials.
pub proof fn lemma_embed_lagrange<F: ExtensionOf<S>, S: BinaryField>(xs: Seq<S>, i: int, z: S)
    requires
        0 <= i < xs.len(),
    ensures
        F::embed_of(lagrange(xs, i, z)) == lagrange(
            embed_all::<F, S>(xs),
            i,
            F::embed_of(z),
        ),
{
    let n = xs.len() as int;
    lemma_embed_product::<F, S>(z, xs, 0, i);
    lemma_embed_product::<F, S>(z, xs, i + 1, n);
    lemma_embed_product::<F, S>(xs[i], xs, 0, i);
    lemma_embed_product::<F, S>(xs[i], xs, i + 1, n);
    F::lemma_embed(product_range(z, xs, 0, i), product_range(z, xs, i + 1, n));
    F::lemma_embed(product_range(xs[i], xs, 0, i), product_range(xs[i], xs, i + 1, n));
    let d = product_but(xs[i], xs, i);
    lemma_embed_inverted::<F, S>(d, d);
    F::lemma_embed(product_but(z, xs, i), d.inverted());
}

/// Embedding keeps the points of a subspace.
pub proof fn lemma_embed_point<F: ExtensionOf<S>, S: BinaryField>(basis: Seq<S>, i: int)
    ensures
        F::embed_of(subspace_point(basis, i)) == subspace_point(embed_all::<F, S>(basis), i),
    decreases basis.len(),
{
    let e = embed_all::<F, S>(basis);
    F::lemma_embed(S::zero_of(), S::zero_of());
    if basis.len() > 0 {
        let half = pow2((basis.len() - 1) as nat) as int;
        assert(e.drop_last() =~= embed_all::<F, S>(basis.drop_last()));
        lemma_embed_point::<F, S>(basis.drop_last(), i);
        lemma_embed_point::<F, S>(basis.drop_last(), i - half);
        F::lemma_embed(subspace_point(basis.drop_last(), i - half), basis.last());
    }
}

/// The points of an embedded subspace are the copies of its points.
pub proof fn lemma_embed_points<F: ExtensionOf<S>, S: BinaryField>(basis: Seq<S>)
    ensures
        subspace_points(embed_all::<F, S>(basis)) == embed_all::<F, S>(subspace_points(basis)),
        subspace_points(basis).no_duplicates() ==> subspace_points(
            embed_all::<F, S>(basis),
        ).no_duplicates(),
{
    let (xs, ys) = (subspace_points(basis), subspace_points(embed_all::<F, S>(basis)));
    assert forall|i: int| 0 <= i < ys.len() implies #[trigger] ys[i] == F::embed_of(xs[i]) by {
        lemma_embed_point::<F, S>(basis, i);
    }
    assert(ys =~= embed_all::<F, S>(xs));
    if xs.no_duplicates() {
        assert forall|i: int, j: int| 0 <= i < ys.len() && 0 <= j < ys.len() && i != j implies ys[i]
            != ys[j] by {
            assert(xs[i] != xs[j]);
            lemma_embed_inverted::<F, S>(xs[i], xs[j]);
        }
    }
}

} // verus!
