//! Arithmetic traits of packed fields, plain and tagged with an implementation strategy.
use vstd::prelude::*;

verus! {

/// Value that can be multiplied by itself.
pub trait Square: Sized {
    /// The value multiplied by itself.
    spec fn square_of(self) -> Self;

    /// Returns the value multiplied by itself.
    fn square(self) -> (r: Self)
        ensures
            r == self.square_of(),
    ;
}

/// A packed field type that supports widening (unreduced) multiplication.
///
/// The multiply phase produces a [`Wide`](Self::Wide) value that can be accumulated by addition
/// (which is XOR in GF(2)) without overflow. A single [`reduce_wide`](Self::reduce_wide) call at
/// the end converts back to the packed field representation.
pub trait WideningMul: Sized {
    /// The unreduced products.
    type Wide: Copy + core::ops::Add<Output = Self::Wide>;

    /// The element-wise product.
    spec fn product_of(a: Self, b: Self) -> Self;

    /// What an unreduced value stands for.
    spec fn reduced(wide: Self::Wide) -> Self;

    /// The unreduced product stands for the product.
    fn widening_mul(a: Self, b: Self) -> (r: Self::Wide)
        ensures
            Self::reduced(r) == Self::product_of(a, b),
    ;

    /// Reduces an unreduced value.
    fn reduce_wide(wide: Self::Wide) -> (r: Self)
        ensures
            r == Self::reduced(wide),
    ;
}

/// Value that can be inverted.
pub trait InvertOrZero: Sized {
    /// The inverted value, or zero where `self` is zero.
    spec fn inverse_of(self) -> Self;

    /// Returns the inverted value, or zero where `self` is zero.
    fn invert_or_zero(self) -> (r: Self)
        ensures
            r == self.inverse_of(),
    ;
}

/// Value that can be multiplied by alpha.
pub trait MulAlpha: Sized {
    /// Multiply self by alpha.
    fn mul_alpha(self) -> Self;
}

/// Multiplication that is parameterized with some strategy.
pub trait TaggedMul<Strategy>: Sized {
    /// The product.
    spec fn tagged_product(self, rhs: Self) -> Self;

    /// Returns the product.
    fn mul(self, rhs: Self) -> (r: Self)
        ensures
            r == self.tagged_product(rhs),
    ;
}

/// Square operation that is parameterized with some strategy.
pub trait TaggedSquare<Strategy>: Sized {
    /// The value multiplied by itself.
    spec fn tagged_square(self) -> Self;

    /// Returns the value multiplied by itself.
    fn square(self) -> (r: Self)
        ensures
            r == self.tagged_square(),
    ;
}

/// Invert-or-zero operation that is parameterized with some strategy.
pub trait TaggedInvertOrZero<Strategy>: Sized {
    /// The inverted value, or zero where `self` is zero.
    spec fn tagged_inverse(self) -> Self;

    /// Returns the inverted value, or zero where `self` is zero.
    fn invert_or_zero(self) -> (r: Self)
        ensures
            r == self.tagged_inverse(),
    ;
}

/// Multiply-by-alpha operation that is parameterized with some strategy.
pub trait TaggedMulAlpha<Strategy>: Sized {
    /// Multiply self by alpha.
    fn mul_alpha(self) -> Self;
}

} // verus!
