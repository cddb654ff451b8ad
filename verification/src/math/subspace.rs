//! Binary subspaces: the sums of subsets of a basis.
use super::sums::{keep_if, lemma_sum_ext, lemma_zero, sum};
use crate::field::{BinaryField, BinaryField128bGhash, B128};
use vstd::arithmetic::power2::{
    lemma2_to64, lemma_pow2_adds, lemma_pow2_pos, lemma_pow2_strictly_increases, lemma_pow2_unfold, pow2,
};
use vstd::prelude::*;

verus! {

/// The subspace spanned by a basis. Point `i` is the sum of the basis elements selected by the
/// bits of `i`.
#[derive(Debug, Clone)]
pub struct BinarySubspace<F> {
    /// The basis.
    pub basis: Vec<F>,
}

/// The sum of the basis elements selected by the bits of `i`.
pub open spec fn subspace_point<F: BinaryField>(basis: Seq<F>, i: int) -> F
    decreases basis.len(),
{
    if basis.len() == 0 {
        F::zero_of()
    } else {
        let half = pow2((basis.len() - 1) as nat) as int;
        if i < half {
            subspace_point(basis.drop_last(), i)
        } else {
            subspace_point(basis.drop_last(), i - half).plus(basis.last())
        }
    }
}

/// All points of a subspace, in the order of their indices.
pub open spec fn subspace_points<F: BinaryField>(basis: Seq<F>) -> Seq<F> {
    Seq::new(pow2(basis.len()), |i: int| subspace_point(basis, i))
}

/// The first `dim` elements of the basis of the field.
pub open spec fn canonical_basis<F: BinaryField>(dim: nat) -> Seq<F> {
    Seq::new(dim, |i: int| F::basis_of(i))
}

impl<F: BinaryField> BinarySubspace<F> {
    /// The subspace spanned by the first `dim` elements of the basis of the field.
    pub fn with_dim(dim: usize) -> (r: Self)
        requires
            dim <= F::degree(),
        ensures
            r.basis@ == canonical_basis::<F>(dim as nat),
    {
        let mut basis: Vec<F> = Vec::new();
        for i in 0..dim
            invariant
                dim <= F::degree(),
                basis@.len() == i,
                forall|k: int| 0 <= k < i ==> #[trigger] basis@[k] == F::basis_of(k),
        {
            basis.push(F::basis(i));
        }
        assert(basis@ =~= canonical_basis::<F>(dim as nat));
        BinarySubspace { basis }
    }

    /// Point `i`.
    pub fn get(&self, i: usize) -> (r: F)
        requires
            i < pow2(self.basis@.len()) <= usize::MAX,
        ensures
            r == subspace_point(self.basis@, i as int),
    {
        let points = self.points();
        points[i]
    }

    /// The dimension.
    pub fn dim(&self) -> (r: usize)
        ensures
            r == self.basis@.len(),
    {
        self.basis.len()
    }

    /// The subspace spanned by the first `dim` basis elements.
    pub fn reduce_dim(&self, dim: usize) -> (r: Self)
        requires
            dim <= self.basis@.len(),
        ensures
            r.basis@ == self.basis@.take(dim as int),
    {
        let mut basis: Vec<F> = Vec::new();
        for i in 0..dim
            invariant
                dim <= self.basis@.len(),
                basis@ =~= self.basis@.take(i as int),
        {
            basis.push(self.basis[i]);
        }
        BinarySubspace { basis }
    }

    /// All points, in the order of their indices.
    pub fn points(&self) -> (r: Vec<F>)
        requires
            pow2(self.basis@.len()) <= usize::MAX,
        ensures
            r@ == subspace_points(self.basis@),
    {
        let mut pts: Vec<F> = Vec::new();
        pts.push(F::zero());
        let n: usize = self.basis.len();
        proof {
            lemma2_to64();
            assert(self.basis@.take(0) =~= Seq::<F>::empty());
            assert(pts@ =~= subspace_points(self.basis@.take(0)));
        }
        for k in 0..n
            invariant
                n == self.basis@.len(),
                pts@ == subspace_points(self.basis@.take(k as int)),
        {
            let half: usize = pts.len();
            let b = self.basis[k];
            let ghost before = self.basis@.take(k as int);
            let ghost after = self.basis@.take(k + 1);
            let ghost old_pts = pts@;
            proof {
                assert(after.drop_last() =~= before);
                lemma_pow2_unfold((k + 1) as nat);
            }
            for j in 0..half
                invariant
                    half == pow2(k as nat),
                    old_pts.len() == half,
                    old_pts == subspace_points(before),
                    after.len() == k + 1,
                    after.drop_last() == before,
                    after.last() == b,
                    pts@.len() == half + j,
                    forall|i: int| 0 <= i < half ==> #[trigger] pts@[i] == old_pts[i],
                    forall|i: int|
                        half <= i < half + j ==> #[trigger] pts@[i] == subspace_point(after, i),
            {
                let p = pts[j].add(b);
                pts.push(p);
            }
            assert(pts@ =~= subspace_points(after));
        }
        assert(self.basis@.take(n as int) =~= self.basis@);
        pts
    }
}

proof fn lemma_point_bits(i: u128, n: u128)
    by (bit_vector)
    requires
        n < 127,
        i < (1u128 << n),
    ensures
        i ^ (1u128 << n) == i + (1u128 << n),
{
}

/// The points of the subspaces of GF(2^128) spanned by its basis are the words below a power of
/// two, so that they all differ.
pub proof fn lemma_canonical_points(dim: nat, i: int)
    requires
        dim < 64,
        0 <= i < pow2(dim),
    ensures
        subspace_point(canonical_basis::<B128>(dim), i) == BinaryField128bGhash(i as u128),
    decreases dim,
{
    lemma2_to64();
    if dim > 0 {
        let b = canonical_basis::<B128>(dim);
        let k = (dim - 1) as nat;
        assert(b.drop_last() =~= canonical_basis::<B128>(k));
        lemma_pow2_unfold(dim);
        let half = pow2(k) as int;
        lemma_pow2_strictly_increases(k, 64);
        lemma_pow2_shift(k);
        if i < half {
            lemma_canonical_points(k, i);
        } else {
            lemma_canonical_points(k, i - half);
            lemma_point_bits((i - half) as u128, k as u128);
            assert(b.last() == BinaryField128bGhash(1u128 << (k as u128)));
        }
    }
}

pub(crate) proof fn lemma_pow2_shift(k: nat)
    requires
        k < 64,
    ensures
        1u128 << (k as u128) == pow2(k),
    decreases k,
{
    lemma2_to64();
    if k == 0 {
        lemma_double(0);
    } else {
        lemma_pow2_shift((k - 1) as nat);
        lemma_pow2_unfold(k);
        lemma_double((k - 1) as u128);
    }
}

proof fn lemma_double(k: u128)
    by (bit_vector)
    requires
        k < 126,
    ensures
        1u128 << ((k + 1) as u128) == 2 * (1u128 << k),
        1u128 << 0u128 == 1,
{
}

/// The points of the subspaces of GF(2^128) spanned by its basis all differ.
pub proof fn lemma_canonical_points_differ(dim: nat)
    requires
        dim < 64,
    ensures
        subspace_points(canonical_basis::<B128>(dim)).no_duplicates(),
{
    let xs = subspace_points(canonical_basis::<B128>(dim));
    lemma2_to64();
    lemma_pow2_strictly_increases(dim, 64);
    assert forall|i: int, j: int| 0 <= i < xs.len() && 0 <= j < xs.len() && i != j implies xs[i]
        != xs[j] by {
        lemma_canonical_points(dim, i);
        lemma_canonical_points(dim, j);
    }
}

/// Taking away the top bit keeps the lower bits.
proof fn lemma_top_bit_dropped(i: int, n: nat, k: nat)
    requires
        k < n,
        pow2(n) <= i < 2 * pow2(n),
    ensures
        ((i - pow2(n)) / pow2(k) as int) % 2 == (i / pow2(k) as int) % 2,
{
    let (p, half) = (pow2(k) as int, pow2(n) as int);
    lemma_pow2_pos(k);
    lemma_pow2_adds(k, (n - k) as nat);
    lemma_pow2_unfold((n - k) as nat);
    let q = pow2((n - k - 1) as nat) as int;
    assert(half == p * (2 * q));
    let j = i - half;
    vstd::arithmetic::div_mod::lemma_hoist_over_denominator(j, 2 * q, p as nat);
    assert((2 * q) * p == p * (2 * q)) by (nonlinear_arith);
    assert(i / p == j / p + 2 * q);
}

/// Point `i` is the sum of the basis elements whose places are the set bits of `i`, for any basis.
pub proof fn lemma_point_sums_basis<F: BinaryField>(basis: Seq<F>, i: int)
    requires
        0 <= i < pow2(basis.len()),
    ensures
        subspace_point(basis, i) == sum(
            |k: int| keep_if((i / pow2(k as nat) as int) % 2 == 1, basis[k]),
            basis.len(),
        ),
    decreases basis.len(),
{
    let n = basis.len();
    let f = |k: int| keep_if((i / pow2(k as nat) as int) % 2 == 1, basis[k]);
    if n > 0 {
        let m = (n - 1) as nat;
        lemma_pow2_unfold(n);
        lemma_pow2_pos(m);
        let half = pow2(m) as int;
        let j = if i < half {
            i
        } else {
            i - half
        };
        let rest = basis.drop_last();
        lemma_point_sums_basis(rest, j);
        let g = |k: int| keep_if((j / pow2(k as nat) as int) % 2 == 1, rest[k]);
        assert forall|k: int| 0 <= k < m implies #[trigger] f(k) == g(k) by {
            assert(rest[k] == basis[k]);
            if i >= half {
                lemma_top_bit_dropped(i, m, k as nat);
            }
        }
        lemma_sum_ext(f, g, m);
        vstd::arithmetic::div_mod::lemma_fundamental_div_mod_converse(
            i,
            half,
            if i < half {
                0
            } else {
                1
            },
            j,
        );
        lemma_zero(subspace_point(rest, j));
    }
}

/// The points of a smaller subspace are the first points of the larger one.
pub proof fn lemma_reduced_points<F: BinaryField>(basis: Seq<F>, dim: nat, i: int)
    requires
        dim <= basis.len(),
        0 <= i < pow2(dim),
    ensures
        subspace_point(basis.take(dim as int), i) == subspace_point(basis, i),
    decreases basis.len(),
{
    if dim == basis.len() {
        assert(basis.take(dim as int) =~= basis);
    } else {
        let m = (basis.len() - 1) as nat;
        let rest = basis.drop_last();
        if dim < m {
            lemma_pow2_strictly_increases(dim, m);
        }
        assert(rest.take(dim as int) =~= basis.take(dim as int));
        lemma_reduced_points(rest, dim, i);
    }
}

} // verus!
