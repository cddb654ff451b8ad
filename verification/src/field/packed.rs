//! The scalar field type and its packed forms of one and two elements.
use super::arithmetic_traits::{
    InvertOrZero, Square, TaggedInvertOrZero, TaggedMul, TaggedSquare, WideningMul,
};
use super::gf128::{
    gf_mul, gf_pow, lemma_gf_mul_assoc, lemma_gf_mul_comm, lemma_gf_mul_units, lemma_gf_mul_xor,
    lemma_xor128,
};
use super::ghash::{
    mul_clmul, square_clmul, ClMulUnderlier, WideGhashProduct, M128, M256,
};
use super::inverse::lemma_gf_inverse;
use vstd::prelude::*;

verus! {

/// A field of characteristic two, with the ring laws that the generic algorithms rest on.
pub trait BinaryField: Sized + Copy {
    /// The neutral element of addition.
    spec fn zero_of() -> Self;

    /// The neutral element of multiplication.
    spec fn one_of() -> Self;

    /// The sum.
    spec fn plus(self, rhs: Self) -> Self;

    /// The product.
    spec fn times(self, rhs: Self) -> Self;

    /// Addition is a commutative group in which every element is its own inverse.
    proof fn lemma_plus(a: Self, b: Self, c: Self)
        ensures
            a.plus(b) == b.plus(a),
            a.plus(b).plus(c) == a.plus(b.plus(c)),
            a.plus(Self::zero_of()) == a,
            a.plus(a) == Self::zero_of(),
    ;

    /// Multiplication is a commutative monoid that distributes over addition.
    proof fn lemma_times(a: Self, b: Self, c: Self)
        ensures
            a.times(b) == b.times(a),
            a.times(b).times(c) == a.times(b.times(c)),
            a.times(Self::one_of()) == a,
            a.times(Self::zero_of()) == Self::zero_of(),
            a.times(b.plus(c)) == a.times(b).plus(a.times(c)),
    ;

    /// Returns zero.
    fn zero() -> (r: Self)
        ensures
            r == Self::zero_of(),
    ;

    /// Returns one.
    fn one() -> (r: Self)
        ensures
            r == Self::one_of(),
    ;

    /// Returns the sum.
    fn add(self, rhs: Self) -> (r: Self)
        ensures
            r == self.plus(rhs),
    ;

    /// Returns the product.
    fn mul(self, rhs: Self) -> (r: Self)
        ensures
            r == self.times(rhs),
    ;

    /// Whether two elements are equal.
    fn equals(self, rhs: Self) -> (r: bool)
        ensures
            r == (self == rhs),
    ;

    /// The number of elements of the basis over the field of two elements.
    spec fn degree() -> nat;

    /// Element `i` of the basis over the field of two elements.
    spec fn basis_of(i: int) -> Self;

    /// The field holds at least a byte.
    proof fn lemma_degree()
        ensures
            Self::degree() >= 8,
    ;

    /// Returns element `i` of the basis.
    fn basis(i: usize) -> (r: Self)
        requires
            i < Self::degree(),
        ensures
            r == Self::basis_of(i as int),
    ;

    /// The inverse, or zero for zero.
    spec fn inverted(self) -> Self;

    /// The product of a nonzero element with its inverse is one.
    proof fn lemma_inverse(a: Self)
        ensures
            a != Self::zero_of() ==> a.times(a.inverted()) == Self::one_of(),
            Self::zero_of().inverted() == Self::zero_of(),
            Self::zero_of() != Self::one_of(),
    ;

    /// Returns the inverse, or zero for zero.
    fn invert_or_zero(self) -> (r: Self)
        ensures
            r == self.inverted(),
    ;
}

/// A field that contains a copy of the field `S`.
pub trait ExtensionOf<S: BinaryField>: BinaryField {
    /// The copy of an element.
    spec fn embed_of(s: S) -> Self;

    /// Embedding keeps sums, products, zero and one.
    proof fn lemma_embed(a: S, b: S)
        ensures
            Self::embed_of(a.plus(b)) == Self::embed_of(a).plus(Self::embed_of(b)),
            Self::embed_of(a.times(b)) == Self::embed_of(a).times(Self::embed_of(b)),
            Self::embed_of(S::zero_of()) == Self::zero_of(),
            Self::embed_of(S::one_of()) == Self::one_of(),
    ;

    /// Returns the copy of an element.
    fn embed(s: S) -> (r: Self)
        ensures
            r == Self::embed_of(s),
    ;
}

/// An element of GF(2^128), bit `i` of the word being the coefficient of `x^i`.
#[derive(Clone, Copy, PartialEq, Eq, Structural, Debug)]
pub struct BinaryField128bGhash(pub u128);

/// The field that proofs are checked over.
pub type B128 = BinaryField128bGhash;

impl BinaryField for BinaryField128bGhash {
    open spec fn zero_of() -> Self {
        BinaryField128bGhash(0)
    }

    open spec fn one_of() -> Self {
        BinaryField128bGhash(1)
    }

    open spec fn plus(self, rhs: Self) -> Self {
        BinaryField128bGhash(self.0 ^ rhs.0)
    }

    open spec fn times(self, rhs: Self) -> Self {
        BinaryField128bGhash(gf_mul(self.0, rhs.0))
    }

    proof fn lemma_plus(a: Self, b: Self, c: Self) {
        lemma_xor128();
    }

    proof fn lemma_times(a: Self, b: Self, c: Self) {
        lemma_gf_mul_comm(a.0, b.0);
        lemma_gf_mul_assoc(a.0, b.0, c.0);
        lemma_gf_mul_units(a.0);
        lemma_gf_mul_xor(a.0, b.0, c.0);
    }

    fn zero() -> Self {
        BinaryField128bGhash(0)
    }

    fn one() -> Self {
        BinaryField128bGhash(1)
    }

    fn add(self, rhs: Self) -> Self {
        BinaryField128bGhash(self.0 ^ rhs.0)
    }

    fn mul(self, rhs: Self) -> Self {
        let r = mul_clmul(M128(self.0), M128(rhs.0));
        assert(r.lanes()[0] == gf_mul(self.0, rhs.0));
        BinaryField128bGhash(r.0)
    }

    fn equals(self, rhs: Self) -> bool {
        self.0 == rhs.0
    }

    open spec fn degree() -> nat {
        128
    }

    open spec fn basis_of(i: int) -> Self {
        BinaryField128bGhash(1u128 << (i as u128))
    }

    proof fn lemma_degree() {
    }

    fn basis(i: usize) -> Self {
        BinaryField128bGhash(1u128 << (i as u128))
    }

    open spec fn inverted(self) -> Self {
        BinaryField128bGhash(gf_pow(self.0, inverse_exponent()))
    }

    proof fn lemma_inverse(a: Self) {
        lemma_gf_inverse(a.0);
        lemma_gf_inverse(0);
    }

    fn invert_or_zero(self) -> Self {
        BinaryField128bGhash(invert_lane(self.0))
    }
}

impl<S: BinaryField> ExtensionOf<S> for S {
    open spec fn embed_of(s: S) -> Self {
        s
    }

    proof fn lemma_embed(a: S, b: S) {
    }

    fn embed(s: S) -> Self {
        s
    }
}

/// The exponent `2^128 - 2`, by which an element is inverted.
pub open spec fn inverse_exponent() -> nat {
    0xffff_ffff_ffff_ffff_ffff_ffff_ffff_fffe
}

proof fn lemma_pow_double(a: u128, n: nat)
    ensures
        gf_pow(a, 2 * n) == gf_mul(gf_pow(a, n), gf_pow(a, n)),
    decreases n,
{
    if n == 0 {
        lemma_gf_mul_units(1);
    } else {
        let m = (n - 1) as nat;
        lemma_pow_double(a, m);
        let p = gf_pow(a, m);
        assert(gf_pow(a, 2 * n) == gf_mul(gf_mul(gf_pow(a, 2 * m), a), a)) by {
            assert(gf_pow(a, 2 * n) == gf_mul(gf_pow(a, (2 * n - 1) as nat), a));
            assert((2 * n - 1 - 1) as nat == 2 * m);
            assert(gf_pow(a, (2 * n - 1) as nat) == gf_mul(gf_pow(a, (2 * n - 1 - 1) as nat), a));
        }
        lemma_gf_mul_assoc(gf_mul(p, p), a, a);
        lemma_gf_mul_assoc(p, p, gf_mul(a, a));
        lemma_gf_mul_assoc(p, a, a);
        lemma_gf_mul_comm(gf_mul(p, a), a);
        lemma_gf_mul_comm(p, a);
        lemma_gf_mul_assoc(p, a, gf_mul(p, a));
        lemma_gf_mul_assoc(a, p, a);
    }
}

/// Raises an element to the power `2^128 - 2`: its inverse, or zero for zero.
fn invert_lane(a: u128) -> (r: u128)
    ensures
        r == gf_pow(a, inverse_exponent()),
{
    // acc = a^(2^k - 1) after k rounds; the last squaring drops the lowest exponent bit.
    let mut acc: u128 = a;
    let mut k: u32 = 1;
    let ghost mut e: nat = 1;
    proof {
        lemma_gf_mul_units(a);
        assert(gf_pow(a, 0) == 1);
        assert(gf_pow(a, 1) == gf_mul(gf_pow(a, 0), a));
        vstd::arithmetic::power2::lemma2_to64();
    }
    while k < 127
        invariant
            1 <= k <= 127,
            e + 1 == vstd::arithmetic::power2::pow2(k as nat),
            acc == gf_pow(a, e),
        decreases 127 - k,
    {
        let sq = square_clmul(M128(acc));
        assert(sq.lanes()[0] == gf_mul(acc, acc));
        let r = mul_clmul(sq, M128(a));
        assert(r.lanes()[0] == gf_mul(sq.0, a));
        proof {
            lemma_pow_double(a, e);
            vstd::arithmetic::power2::lemma_pow2_unfold((k + 1) as nat);
            assert(gf_pow(a, 2 * e + 1) == gf_mul(gf_pow(a, (2 * e + 1 - 1) as nat), a));
            e = 2 * e + 1;
        }
        acc = r.0;
        k = k + 1;
    }
    let sq = square_clmul(M128(acc));
    proof {
        assert(sq.lanes()[0] == gf_mul(acc, acc));
        lemma_pow_double(a, e);
        vstd::arithmetic::power2::lemma2_to64();
        vstd::arithmetic::power2::lemma2_to64_rest();
        vstd::arithmetic::power2::lemma_pow2_adds(63, 64);
        assert(2 * e == inverse_exponent());
    }
    sq.0
}

/// One field element in a 128-bit underlier.
#[derive(Clone, Copy, PartialEq, Eq, Structural, Debug)]
pub struct PackedBinaryGhash1x128b(pub M128);

/// Two field elements in a 256-bit underlier.
#[derive(Clone, Copy, PartialEq, Eq, Structural, Debug)]
pub struct PackedBinaryGhash2x128b(pub M256);

/// The widest packing.
pub type OptimalPackedB128 = PackedBinaryGhash2x128b;

/// Strategy for GHASH field arithmetic on 256-bit underliers.
pub struct Ghash256Strategy;

impl PackedBinaryGhash1x128b {
    /// The element-wise sum.
    pub fn add(self, rhs: Self) -> (r: Self)
        ensures
            r == PackedBinaryGhash1x128b(self.0.xor_of(rhs.0)),
    {
        PackedBinaryGhash1x128b(self.0.bitxor(rhs.0))
    }

    /// The element-wise product.
    pub fn mul(self, rhs: Self) -> (r: Self)
        ensures
            r == Self::product_of(self, rhs),
    {
        let r = mul_clmul(self.0, rhs.0);
        assert(r.lanes()[0] == gf_mul(self.0.0, rhs.0.0));
        PackedBinaryGhash1x128b(r)
    }
}

impl Square for PackedBinaryGhash1x128b {
    open spec fn square_of(self) -> Self {
        PackedBinaryGhash1x128b(M128(gf_mul(self.0.0, self.0.0)))
    }

    fn square(self) -> Self {
        let r = square_clmul(self.0);
        assert(r.lanes()[0] == gf_mul(self.0.0, self.0.0));
        PackedBinaryGhash1x128b(r)
    }
}

impl InvertOrZero for PackedBinaryGhash1x128b {
    open spec fn inverse_of(self) -> Self {
        PackedBinaryGhash1x128b(M128(gf_pow(self.0.0, inverse_exponent())))
    }

    fn invert_or_zero(self) -> Self {
        PackedBinaryGhash1x128b(M128(invert_lane(self.0.0)))
    }
}

impl WideningMul for PackedBinaryGhash1x128b {
    type Wide = WideGhashProduct<M128>;

    open spec fn product_of(a: Self, b: Self) -> Self {
        PackedBinaryGhash1x128b(M128(gf_mul(a.0.0, b.0.0)))
    }

    open spec fn reduced(wide: WideGhashProduct<M128>) -> Self {
        PackedBinaryGhash1x128b(M128(wide.value(0)))
    }

    fn widening_mul(a: Self, b: Self) -> WideGhashProduct<M128> {
        let r = WideGhashProduct::widening_mul(a.0, b.0);
        assert(r.value(0) == gf_mul(a.0.lanes()[0], b.0.lanes()[0]));
        r
    }

    fn reduce_wide(wide: WideGhashProduct<M128>) -> Self {
        let r = wide.reduce();
        assert(r.lanes()[0] == wide.value(0));
        PackedBinaryGhash1x128b(r)
    }
}

impl PackedBinaryGhash2x128b {
    /// The element-wise sum.
    pub fn add(self, rhs: Self) -> (r: Self)
        ensures
            r == PackedBinaryGhash2x128b(self.0.xor_of(rhs.0)),
    {
        PackedBinaryGhash2x128b(self.0.bitxor(rhs.0))
    }
}

impl TaggedMul<Ghash256Strategy> for PackedBinaryGhash2x128b {
    open spec fn tagged_product(self, rhs: Self) -> Self {
        PackedBinaryGhash2x128b(M256(gf_mul(self.0.0, rhs.0.0), gf_mul(self.0.1, rhs.0.1)))
    }

    fn mul(self, rhs: Self) -> Self {
        let r = mul_clmul(self.0, rhs.0);
        assert(r.lanes()[0] == gf_mul(self.0.lanes()[0], rhs.0.lanes()[0]));
        assert(r.lanes()[1] == gf_mul(self.0.lanes()[1], rhs.0.lanes()[1]));
        PackedBinaryGhash2x128b(r)
    }
}

impl TaggedSquare<Ghash256Strategy> for PackedBinaryGhash2x128b {
    open spec fn tagged_square(self) -> Self {
        PackedBinaryGhash2x128b(M256(gf_mul(self.0.0, self.0.0), gf_mul(self.0.1, self.0.1)))
    }

    fn square(self) -> Self {
        let r = square_clmul(self.0);
        assert(r.lanes()[0] == gf_mul(self.0.lanes()[0], self.0.lanes()[0]));
        assert(r.lanes()[1] == gf_mul(self.0.lanes()[1], self.0.lanes()[1]));
        PackedBinaryGhash2x128b(r)
    }
}

impl TaggedInvertOrZero<Ghash256Strategy> for PackedBinaryGhash2x128b {
    open spec fn tagged_inverse(self) -> Self {
        PackedBinaryGhash2x128b(
            M256(gf_pow(self.0.0, inverse_exponent()), gf_pow(self.0.1, inverse_exponent())),
        )
    }

    fn invert_or_zero(self) -> Self {
        let r0 = InvertOrZero::invert_or_zero(PackedBinaryGhash1x128b(M128(self.0.0)));
        let r1 = InvertOrZero::invert_or_zero(PackedBinaryGhash1x128b(M128(self.0.1)));
        PackedBinaryGhash2x128b(M256(r0.0.0, r1.0.0))
    }
}

impl WideningMul for PackedBinaryGhash2x128b {
    type Wide = WideGhashProduct<M256>;

    open spec fn product_of(a: Self, b: Self) -> Self {
        PackedBinaryGhash2x128b(M256(gf_mul(a.0.0, b.0.0), gf_mul(a.0.1, b.0.1)))
    }

    open spec fn reduced(wide: WideGhashProduct<M256>) -> Self {
        PackedBinaryGhash2x128b(M256(wide.value(0), wide.value(1)))
    }

    fn widening_mul(a: Self, b: Self) -> WideGhashProduct<M256> {
        let r = WideGhashProduct::widening_mul(a.0, b.0);
        assert(r.value(0) == gf_mul(a.0.lanes()[0], b.0.lanes()[0]));
        assert(r.value(1) == gf_mul(a.0.lanes()[1], b.0.lanes()[1]));
        r
    }

    fn reduce_wide(wide: WideGhashProduct<M256>) -> Self {
        let r = wide.reduce();
        assert(r.lanes()[0] == wide.value(0));
        assert(r.lanes()[1] == wide.value(1));
        PackedBinaryGhash2x128b(r)
    }
}

} // verus!
