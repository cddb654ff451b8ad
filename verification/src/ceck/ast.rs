//! Syntax of `.ceck` files.
use crate::constraint_system::ShiftVariant;
use vstd::prelude::*;

verus! {

/// A shift operator.
#[derive(Debug, Clone, Copy, PartialEq, Eq, Structural)]
pub enum ShiftOp {
    /// Logical left.
    Sll,
    /// Logical right.
    Slr,
    /// Arithmetic right.
    Sar,
    /// Rotation to the right.
    Ror,
    /// Logical left of 32-bit halves.
    Sll32,
    /// Logical right of 32-bit halves.
    Slr32,
    /// Arithmetic right of 32-bit halves.
    Sar32,
    /// Rotation to the right of 32-bit halves.
    Ror32,
}

impl ShiftOp {
    /// The variant that the operator stands for.
    pub open spec fn variant(self) -> ShiftVariant {
        match self {
            ShiftOp::Sll => ShiftVariant::Sll,
            ShiftOp::Slr => ShiftVariant::Slr,
            ShiftOp::Sar => ShiftVariant::Sar,
            ShiftOp::Ror => ShiftVariant::Rotr,
            ShiftOp::Sll32 => ShiftVariant::Sll32,
            ShiftOp::Slr32 => ShiftVariant::Srl32,
            ShiftOp::Sar32 => ShiftVariant::Sra32,
            ShiftOp::Ror32 => ShiftVariant::Rotr32,
        }
    }

    /// Returns the variant that the operator stands for.
    pub fn to_shift_variant(&self) -> (r: ShiftVariant)
        ensures
            r == self.variant(),
    {
        match self {
            ShiftOp::Sll => ShiftVariant::Sll,
            ShiftOp::Slr => ShiftVariant::Slr,
            ShiftOp::Sar => ShiftVariant::Sar,
            ShiftOp::Ror => ShiftVariant::Rotr,
            ShiftOp::Sll32 => ShiftVariant::Sll32,
            ShiftOp::Slr32 => ShiftVariant::Srl32,
            ShiftOp::Sar32 => ShiftVariant::Sra32,
            ShiftOp::Ror32 => ShiftVariant::Rotr32,
        }
    }
}

/// Different operators stand for different variants, and every variant has an operator.
pub proof fn lemma_variants(a: ShiftOp, b: ShiftOp, v: ShiftVariant)
    ensures
        a.variant() == b.variant() ==> a == b,
        exists|op: ShiftOp| #[trigger] op.variant() == v,
{
    let op = match v {
        ShiftVariant::Sll => ShiftOp::Sll,
        ShiftVariant::Slr => ShiftOp::Slr,
        ShiftVariant::Sar => ShiftOp::Sar,
        ShiftVariant::Rotr => ShiftOp::Ror,
        ShiftVariant::Sll32 => ShiftOp::Sll32,
        ShiftVariant::Srl32 => ShiftOp::Slr32,
        ShiftVariant::Sra32 => ShiftOp::Sar32,
        ShiftVariant::Rotr32 => ShiftOp::Ror32,
    };
    assert(op.variant() == v);
}

/// A term of an operand.
#[derive(Debug, Clone)]
pub enum Term {
    /// A literal word.
    Literal(u64),
    /// A wire by its name.
    Wire(String),
    /// A shifted wire.
    Shifted {
        /// The name of the wire.
        wire: String,
        /// The operator.
        op: ShiftOp,
        /// The amount.
        amount: usize,
    },
}

/// The exclusive or of terms.
#[derive(Debug, Clone)]
pub struct XorExpr {
    /// The terms.
    pub terms: Vec<Term>,
}

/// An operand.
#[derive(Debug, Clone)]
pub enum OperandExpr {
    /// An exclusive or.
    Xor(XorExpr),
    /// A single term.
    Term(Term),
}

/// A constraint.
#[derive(Debug, Clone)]
pub enum Constraint {
    /// `a & b = c`.
    And {
        /// Left operand.
        a: OperandExpr,
        /// Right operand.
        b: OperandExpr,
        /// Result.
        c: OperandExpr,
    },
    /// `a * b = hi * 2^64 + lo`.
    Mul {
        /// Left operand.
        a: OperandExpr,
        /// Right operand.
        b: OperandExpr,
        /// High word of the product.
        hi: OperandExpr,
        /// Low word of the product.
        lo: OperandExpr,
    },
}

/// A list of constraints.
#[derive(Debug, Clone)]
pub struct ConstraintSet {
    /// The constraints.
    pub constraints: Vec<Constraint>,
}

/// The claim that two sets are equivalent.
#[derive(Debug, Clone)]
pub struct AssertEqv {
    /// The left set.
    pub lhs: ConstraintSet,
    /// The right set.
    pub rhs: ConstraintSet,
}

/// The claim that two sets are not equivalent.
#[derive(Debug, Clone)]
pub struct AssertNotEqv {
    /// The left set.
    pub lhs: ConstraintSet,
    /// The right set.
    pub rhs: ConstraintSet,
}

/// A claim of a test file.
#[derive(Debug, Clone)]
pub enum TestItem {
    /// Equivalence.
    AssertEqv(AssertEqv),
    /// Difference.
    AssertNotEqv(AssertNotEqv),
}

/// A test file.
#[derive(Debug)]
pub struct TestFile {
    /// The claims.
    pub assertions: Vec<TestItem>,
}

} // verus!
