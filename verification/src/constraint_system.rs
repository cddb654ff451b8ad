//! Constraint systems over 64-bit words: shifted operands, AND and MUL constraints, and what it
//! means for a vector of words to satisfy them.
use crate::circuit::word::rotl64;
use vstd::prelude::*;

verus! {

/// A 64-bit word.
#[derive(Debug, Clone, Copy, PartialEq, Eq, Structural)]
pub struct Word(pub u64);

/// How a word is shifted before it enters an operand. The last four act on each 32-bit half by
/// itself, with the amount taken modulo 32.
#[derive(Debug, Clone, Copy, PartialEq, Eq, Structural)]
pub enum ShiftVariant {
    /// Logical shift to the left.
    Sll,
    /// Logical shift to the right.
    Slr,
    /// Arithmetic shift to the right.
    Sar,
    /// Rotation to the right.
    Rotr,
    /// Logical shift to the left of the halves.
    Sll32,
    /// Logical shift to the right of the halves.
    Srl32,
    /// Arithmetic shift to the right of the halves.
    Sra32,
    /// Rotation to the right of the halves.
    Rotr32,
}

/// The number of shift variants.
pub const SHIFT_VARIANT_COUNT: usize = 8;

/// A position in the value vector.
#[derive(Debug, Clone, Copy, PartialEq, Eq, Structural)]
pub struct ValueIndex(pub u32);

/// One term of an operand: a value under a shift.
#[derive(Debug, Clone, Copy, PartialEq, Eq, Structural)]
pub struct ShiftedValueIndex {
    /// The value.
    pub value_index: ValueIndex,
    /// The shift.
    pub shift_variant: ShiftVariant,
    /// The shift amount, below 64.
    pub amount: usize,
}

/// An operand: the XOR of its terms.
pub type Operand = Vec<ShiftedValueIndex>;

/// `a & b = c`.
#[derive(Debug, Clone, PartialEq, Eq)]
pub struct AndConstraint {
    /// The first factor.
    pub a: Operand,
    /// The second factor.
    pub b: Operand,
    /// The product.
    pub c: Operand,
}

/// `a * b = 2^64 * hi + lo`.
#[derive(Debug, Clone, PartialEq, Eq)]
pub struct MulConstraint {
    /// The first factor.
    pub a: Operand,
    /// The second factor.
    pub b: Operand,
    /// The low word of the product.
    pub lo: Operand,
    /// The high word of the product.
    pub hi: Operand,
}

/// How a value vector is divided.
#[derive(Debug, Clone, Copy, PartialEq, Eq, Structural)]
pub struct ValueVecLayout {
    /// Number of constants.
    pub n_const: usize,
    /// Number of public inputs and outputs.
    pub n_inout: usize,
    /// Number of private inputs.
    pub n_witness: usize,
    /// Number of private values that are computed, padding among them.
    pub n_internal: usize,
    /// Where the public inputs and outputs start.
    pub offset_inout: usize,
    /// Where the private part starts.
    pub offset_witness: usize,
    /// The committed length, a power of two.
    pub committed_total_len: usize,
    /// Number of values that are not committed.
    pub n_scratch: usize,
}

/// Constants, a layout and constraints.
#[derive(Debug, Clone, PartialEq, Eq)]
pub struct ConstraintSystem {
    /// The layout of the value vector.
    pub value_vec_layout: ValueVecLayout,
    /// The constants that the value vector starts with.
    pub constants: Vec<Word>,
    /// The AND constraints.
    pub and_constraints: Vec<AndConstraint>,
    /// The MUL constraints.
    pub mul_constraints: Vec<MulConstraint>,
}

/// A value vector.
#[derive(Debug, Clone, PartialEq, Eq)]
pub struct ValueVec {
    /// The layout.
    pub layout: ValueVecLayout,
    /// The words: public part, then private part.
    pub data: Vec<Word>,
}

/// The rotation of a 32-bit half to the right.
pub open spec fn rotr_half(x: u64, n: u64) -> u64 {
    ((x >> n) | (x << ((32 - n) as u64))) & 0xffff_ffff
}

/// The arithmetic shift of a 32-bit half to the right.
pub open spec fn sra_half(x: u64, n: u64) -> u64 {
    ((x >> n) | (if x >> 31u64 & 1 == 1 {
        0xffff_ffffu64 << ((32 - n) as u64)
    } else {
        0
    })) & 0xffff_ffff
}

/// A word made of two halves.
pub open spec fn halves(hi: u64, lo: u64) -> u64 {
    (hi << 32u64) | lo
}

/// A word under a shift.
pub open spec fn shifted_word(x: u64, variant: ShiftVariant, amount: int) -> u64 {
    let n = amount as u64;
    let m = (amount % 32) as u64;
    let lo = x & 0xffff_ffff;
    let hi = x >> 32u64;
    match variant {
        ShiftVariant::Sll => x << n,
        ShiftVariant::Slr => x >> n,
        ShiftVariant::Sar => (x >> n) | (if n > 0 && x >> 63u64 == 1 {
            0xffff_ffff_ffff_ffffu64 << ((64 - n) as u64)
        } else {
            0
        }),
        ShiftVariant::Rotr => if n == 0 {
            x
        } else {
            rotl64(x, (64 - n) as u32)
        },
        ShiftVariant::Sll32 => halves((hi << m) & 0xffff_ffff, (lo << m) & 0xffff_ffff),
        ShiftVariant::Srl32 => halves(hi >> m, lo >> m),
        ShiftVariant::Sra32 => halves(sra_half(hi, m), sra_half(lo, m)),
        ShiftVariant::Rotr32 => halves(rotr_half(hi, m), rotr_half(lo, m)),
    }
}

/// The word that a term adds.
pub open spec fn term_value(words: Seq<Word>, t: ShiftedValueIndex) -> u64 {
    shifted_word(words[t.value_index.0 as int].0, t.shift_variant, t.amount as int)
}

/// The word that an operand stands for.
pub open spec fn operand_value(words: Seq<Word>, op: Seq<ShiftedValueIndex>) -> u64
    decreases op.len(),
{
    if op.len() == 0 {
        0
    } else {
        operand_value(words, op.drop_last()) ^ term_value(words, op.last())
    }
}

/// Whether the terms of an operand lie within a value vector of length `n` and their amounts
/// are in range.
pub open spec fn operand_ok(op: Seq<ShiftedValueIndex>, n: int) -> bool {
    forall|i: int|
        0 <= i < op.len() ==> (#[trigger] op[i]).value_index.0 < n && op[i].amount < 64
}

/// Whether an AND constraint holds.
pub open spec fn and_holds(words: Seq<Word>, c: AndConstraint) -> bool {
    operand_value(words, c.a@) & operand_value(words, c.b@) == operand_value(words, c.c@)
}

/// Whether a MUL constraint holds.
pub open spec fn mul_holds(words: Seq<Word>, c: MulConstraint) -> bool {
    operand_value(words, c.a@) * operand_value(words, c.b@) == 0x1_0000_0000_0000_0000
        * operand_value(words, c.hi@) + operand_value(words, c.lo@)
}

/// Whether the operands of an AND constraint are in range.
pub open spec fn and_ok(c: AndConstraint, n: int) -> bool {
    operand_ok(c.a@, n) && operand_ok(c.b@, n) && operand_ok(c.c@, n)
}

/// Whether the operands of a MUL constraint are in range.
pub open spec fn mul_ok(c: MulConstraint, n: int) -> bool {
    operand_ok(c.a@, n) && operand_ok(c.b@, n) && operand_ok(c.lo@, n) && operand_ok(c.hi@, n)
}

impl ShiftedValueIndex {
    /// The value itself.
    pub fn plain(value_index: ValueIndex) -> (r: Self)
        ensures
            r == (ShiftedValueIndex { value_index, shift_variant: ShiftVariant::Sll, amount: 0 }),
    {
        ShiftedValueIndex { value_index, shift_variant: ShiftVariant::Sll, amount: 0 }
    }

    /// The value rotated to the right.
    pub fn rotr(value_index: ValueIndex, amount: usize) -> (r: Self)
        requires
            amount < 64,
        ensures
            r == (ShiftedValueIndex { value_index, shift_variant: ShiftVariant::Rotr, amount }),
    {
        ShiftedValueIndex { value_index, shift_variant: ShiftVariant::Rotr, amount }
    }
}

impl ShiftVariant {
    /// The position of a variant in tables that hold one entry per variant.
    pub open spec fn id(self) -> int {
        match self {
            ShiftVariant::Sll => 0,
            ShiftVariant::Slr => 1,
            ShiftVariant::Sar => 2,
            ShiftVariant::Rotr => 3,
            ShiftVariant::Sll32 => 4,
            ShiftVariant::Srl32 => 5,
            ShiftVariant::Sra32 => 6,
            ShiftVariant::Rotr32 => 7,
        }
    }

    /// The position of a variant in tables that hold one entry per variant.
    pub fn shift_id(self) -> (r: usize)
        ensures
            r == self.id(),
            r < 8,
    {
        match self {
            ShiftVariant::Sll => 0,
            ShiftVariant::Slr => 1,
            ShiftVariant::Sar => 2,
            ShiftVariant::Rotr => 3,
            ShiftVariant::Sll32 => 4,
            ShiftVariant::Srl32 => 5,
            ShiftVariant::Sra32 => 6,
            ShiftVariant::Rotr32 => 7,
        }
    }
}

fn sra_half_word(x: u64, n: u64) -> (r: u64)
    requires
        n < 32,
    ensures
        r == sra_half(x, n),
{
    ((x >> n) | (if x >> 31u64 & 1 == 1 {
        0xffff_ffffu64 << (32 - n)
    } else {
        0
    })) & 0xffff_ffff
}

fn rotr_half_word(x: u64, n: u64) -> (r: u64)
    requires
        n < 32,
    ensures
        r == rotr_half(x, n),
{
    ((x >> n) | (x << (32 - n))) & 0xffff_ffff
}

/// Applies a shift to a word.
pub fn eval_shifted_word(word: Word, variant: ShiftVariant, amount: usize) -> (r: Word)
    requires
        amount < 64,
    ensures
        r.0 == shifted_word(word.0, variant, amount as int),
{
    let x: u64 = word.0;
    let n: u64 = amount as u64;
    let m: u64 = (amount % 32) as u64;
    let lo: u64 = x & 0xffff_ffff;
    let hi: u64 = x >> 32u64;
    let r: u64 = match variant {
        ShiftVariant::Sll => x << n,
        ShiftVariant::Slr => x >> n,
        ShiftVariant::Sar => (x >> n) | (if n > 0 && x >> 63u64 == 1 {
            0xffff_ffff_ffff_ffffu64 << (64 - n)
        } else {
            0
        }),
        ShiftVariant::Rotr => if n == 0 {
            x
        } else {
            crate::circuit::word::rotate_left(x, (64 - n) as u32)
        },
        ShiftVariant::Sll32 => (((hi << m) & 0xffff_ffff) << 32u64) | ((lo << m) & 0xffff_ffff),
        ShiftVariant::Srl32 => ((hi >> m) << 32u64) | (lo >> m),
        ShiftVariant::Sra32 => (sra_half_word(hi, m) << 32u64) | sra_half_word(lo, m),
        ShiftVariant::Rotr32 => (rotr_half_word(hi, m) << 32u64) | rotr_half_word(lo, m),
    };
    Word(r)
}

/// Evaluates an operand on a vector of words.
pub fn eval_operand(words: &[Word], operand: &Operand) -> (r: Word)
    requires
        operand_ok(operand@, words@.len() as int),
    ensures
        r.0 == operand_value(words@, operand@),
{
    let mut acc: u64 = 0;
    let n: usize = operand.len();
    for i in 0..n
        invariant
            n == operand@.len(),
            operand_ok(operand@, words@.len() as int),
            acc == operand_value(words@, operand@.take(i as int)),
    {
        let t = operand[i];
        assert(operand@[i as int].value_index.0 < words@.len());
        let v = eval_shifted_word(words[t.value_index.0 as usize], t.shift_variant, t.amount);
        proof {
            assert(operand@.take(i + 1).drop_last() =~= operand@.take(i as int));
        }
        acc = acc ^ v.0;
    }
    assert(operand@.take(n as int) =~= operand@);
    Word(acc)
}

/// The first constraint that a value vector fails.
#[derive(Debug, Clone, Copy, PartialEq, Eq, Structural)]
pub enum VerifyError {
    /// The position of an AND constraint.
    And(usize),
    /// The position of a MUL constraint.
    Mul(usize),
}

impl ConstraintSystem {
    /// Whether every operand lies within the committed vector.
    pub open spec fn wf(self) -> bool {
        &&& forall|i: int|
            0 <= i < self.and_constraints@.len() ==> and_ok(
                #[trigger] self.and_constraints@[i],
                self.value_vec_layout.committed_total_len as int,
            )
        &&& forall|i: int|
            0 <= i < self.mul_constraints@.len() ==> mul_ok(
                #[trigger] self.mul_constraints@[i],
                self.value_vec_layout.committed_total_len as int,
            )
    }

    /// Whether every constraint holds of the words.
    pub open spec fn satisfied_by(self, words: Seq<Word>) -> bool {
        &&& forall|i: int|
            0 <= i < self.and_constraints@.len() ==> and_holds(
                words,
                #[trigger] self.and_constraints@[i],
            )
        &&& forall|i: int|
            0 <= i < self.mul_constraints@.len() ==> mul_holds(
                words,
                #[trigger] self.mul_constraints@[i],
            )
    }

    /// Pads both lists of constraints with empty constraints to the next power of two.
    pub fn prepare(&mut self)
        requires
            old(self).and_constraints@.len() <= usize::MAX / 2,
            old(self).mul_constraints@.len() <= usize::MAX / 2,
        ensures
            final(self).value_vec_layout == old(self).value_vec_layout,
            final(self).constants == old(self).constants,
            is_padded_and(old(self).and_constraints@, final(self).and_constraints@),
            is_padded_mul(old(self).mul_constraints@, final(self).mul_constraints@),
    {
        let n_and: usize = next_power_of_two(self.and_constraints.len());
        let n_mul: usize = next_power_of_two(self.mul_constraints.len());
        while self.and_constraints.len() < n_and
            invariant
                self.and_constraints@.len() <= n_and,
                old(self).and_constraints@.len() <= self.and_constraints@.len(),
                self.value_vec_layout == old(self).value_vec_layout,
                self.constants == old(self).constants,
                self.mul_constraints == old(self).mul_constraints,
                old(self).and_constraints@ =~= self.and_constraints@.subrange(
                    0,
                    old(self).and_constraints@.len() as int,
                ),
                forall|i: int|
                    old(self).and_constraints@.len() <= i < self.and_constraints@.len()
                        ==> is_empty_and(#[trigger] self.and_constraints@[i]),
            decreases n_and - self.and_constraints@.len(),
        {
            self.and_constraints.push(AndConstraint { a: Vec::new(), b: Vec::new(), c: Vec::new() });
        }
        while self.mul_constraints.len() < n_mul
            invariant
                self.mul_constraints@.len() <= n_mul,
                old(self).mul_constraints@.len() <= self.mul_constraints@.len(),
                self.value_vec_layout == old(self).value_vec_layout,
                self.constants == old(self).constants,
                is_padded_and(old(self).and_constraints@, self.and_constraints@),
                old(self).mul_constraints@ =~= self.mul_constraints@.subrange(
                    0,
                    old(self).mul_constraints@.len() as int,
                ),
                forall|i: int|
                    old(self).mul_constraints@.len() <= i < self.mul_constraints@.len()
                        ==> is_empty_mul(#[trigger] self.mul_constraints@[i]),
            decreases n_mul - self.mul_constraints@.len(),
        {
            self.mul_constraints.push(
                MulConstraint { a: Vec::new(), b: Vec::new(), lo: Vec::new(), hi: Vec::new() },
            );
        }
    }
}

/// Whether every operand of an AND constraint is empty.
pub open spec fn is_empty_and(c: AndConstraint) -> bool {
    c.a@.len() == 0 && c.b@.len() == 0 && c.c@.len() == 0
}

/// Whether every operand of a MUL constraint is empty.
pub open spec fn is_empty_mul(c: MulConstraint) -> bool {
    c.a@.len() == 0 && c.b@.len() == 0 && c.lo@.len() == 0 && c.hi@.len() == 0
}

/// Whether `post` is `pre` with empty constraints up to the next power of two.
pub open spec fn is_padded_and(pre: Seq<AndConstraint>, post: Seq<AndConstraint>) -> bool {
    &&& post.len() == ceil_pow2(pre.len())
    &&& pre.len() <= post.len()
    &&& pre == post.subrange(0, pre.len() as int)
    &&& forall|i: int| pre.len() <= i < post.len() ==> is_empty_and(#[trigger] post[i])
}

/// Whether `post` is `pre` with empty constraints up to the next power of two.
pub open spec fn is_padded_mul(pre: Seq<MulConstraint>, post: Seq<MulConstraint>) -> bool {
    &&& post.len() == ceil_pow2(pre.len())
    &&& pre.len() <= post.len()
    &&& pre == post.subrange(0, pre.len() as int)
    &&& forall|i: int| pre.len() <= i < post.len() ==> is_empty_mul(#[trigger] post[i])
}

/// The exponent of the smallest power of two that is at least `n`.
pub open spec fn ceil_log2(n: nat) -> nat
    decreases n,
{
    if n <= 1 {
        0
    } else {
        1 + ceil_log2(((n + 1) / 2) as nat)
    }
}

/// The smallest power of two that is at least `n`.
pub open spec fn ceil_pow2(n: nat) -> nat {
    vstd::arithmetic::power2::pow2(ceil_log2(n))
}

/// It is at least `n`, and half of it is not.
pub proof fn lemma_ceil_pow2(n: nat)
    ensures
        n <= ceil_pow2(n),
        n > 1 ==> ceil_pow2(n) <= 2 * n - 2,
        n <= 1 ==> ceil_pow2(n) == 1,
    decreases n,
{
    vstd::arithmetic::power2::lemma2_to64();
    if n > 1 {
        lemma_ceil_pow2(((n + 1) / 2) as nat);
        vstd::arithmetic::power2::lemma_pow2_unfold(ceil_log2(n));
    }
}

/// The smallest power of two that is at least `n`.
pub fn next_power_of_two(n: usize) -> (r: usize)
    requires
        n <= usize::MAX / 2,
    ensures
        r == ceil_pow2(n as nat),
        n <= r,
        r < 2 * n || r == 1,
    decreases n,
{
    proof {
        lemma_ceil_pow2(n as nat);
        vstd::arithmetic::power2::lemma2_to64();
    }
    if n <= 1 {
        1
    } else {
        let h: usize = next_power_of_two(n / 2 + n % 2);
        proof {
            vstd::arithmetic::power2::lemma_pow2_unfold(ceil_log2(n as nat));
        }
        2 * h
    }
}

/// Finds the first constraint that the words fail, AND constraints first.
pub fn verify_constraints(cs: &ConstraintSystem, values: &ValueVec) -> (r: Result<(), VerifyError>)
    requires
        cs.wf(),
        values.data@.len() >= cs.value_vec_layout.committed_total_len,
    ensures
        r is Ok == cs.satisfied_by(values.data@),
        r matches Err(VerifyError::And(i)) ==> i < cs.and_constraints@.len() && !and_holds(
            values.data@,
            cs.and_constraints@[i as int],
        ) && forall|k: int|
            0 <= k < i ==> and_holds(values.data@, #[trigger] cs.and_constraints@[k]),
        r matches Err(VerifyError::Mul(i)) ==> i < cs.mul_constraints@.len() && !mul_holds(
            values.data@,
            cs.mul_constraints@[i as int],
        ) && (forall|k: int|
            0 <= k < i ==> mul_holds(values.data@, #[trigger] cs.mul_constraints@[k])) && forall|
            k: int,
        |
            0 <= k < cs.and_constraints@.len() ==> and_holds(
                values.data@,
                #[trigger] cs.and_constraints@[k],
            ),
{
    let words = values.data.as_slice();
    let n_and: usize = cs.and_constraints.len();
    for i in 0..n_and
        invariant
            n_and == cs.and_constraints@.len(),
            cs.wf(),
            words@ == values.data@,
            words@.len() >= cs.value_vec_layout.committed_total_len,
            forall|k: int| 0 <= k < i ==> and_holds(words@, #[trigger] cs.and_constraints@[k]),
    {
        let c = &cs.and_constraints[i];
        assert(and_ok(cs.and_constraints@[i as int], words@.len() as int)) by {
            assert(and_ok(
                cs.and_constraints@[i as int],
                cs.value_vec_layout.committed_total_len as int,
            ));
        }
        let a = eval_operand(words, &c.a);
        let b = eval_operand(words, &c.b);
        let p = eval_operand(words, &c.c);
        if a.0 & b.0 != p.0 {
            assert(!and_holds(words@, cs.and_constraints@[i as int]));
            return Err(VerifyError::And(i));
        }
    }
    let n_mul: usize = cs.mul_constraints.len();
    for i in 0..n_mul
        invariant
            n_and == cs.and_constraints@.len(),
            n_mul == cs.mul_constraints@.len(),
            cs.wf(),
            words@ == values.data@,
            words@.len() >= cs.value_vec_layout.committed_total_len,
            forall|k: int| 0 <= k < n_and ==> and_holds(words@, #[trigger] cs.and_constraints@[k]),
            forall|k: int| 0 <= k < i ==> mul_holds(words@, #[trigger] cs.mul_constraints@[k]),
    {
        let c = &cs.mul_constraints[i];
        assert(mul_ok(cs.mul_constraints@[i as int], words@.len() as int)) by {
            assert(mul_ok(
                cs.mul_constraints@[i as int],
                cs.value_vec_layout.committed_total_len as int,
            ));
        }
        let a = eval_operand(words, &c.a);
        let b = eval_operand(words, &c.b);
        let lo = eval_operand(words, &c.lo);
        let hi = eval_operand(words, &c.hi);
        proof {
            assert(a.0 * b.0 <= 0xffff_ffff_ffff_ffff * 0xffff_ffff_ffff_ffff) by (nonlinear_arith)
                requires
                    a.0 <= 0xffff_ffff_ffff_ffff,
                    b.0 <= 0xffff_ffff_ffff_ffff,
            ;
        }
        let product: u128 = (a.0 as u128) * (b.0 as u128);
        let expected: u128 = 0x1_0000_0000_0000_0000u128 * (hi.0 as u128) + (lo.0 as u128);
        if product != expected {
            assert(!mul_holds(words@, cs.mul_constraints@[i as int]));
            return Err(VerifyError::Mul(i));
        }
    }
    Ok(())
}

} // verus!
