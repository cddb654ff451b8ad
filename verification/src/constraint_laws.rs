//! Laws of constraint systems: every term of an operand and every constraint of a system counts, and
//! padding changes nothing.
use crate::constraint_system::{
    and_holds, is_empty_and, is_empty_mul, is_padded_and, is_padded_mul, mul_holds, operand_value,
    term_value, AndConstraint, ConstraintSystem, MulConstraint, ShiftedValueIndex, Word,
};
use crate::keccak::shake_laws::lemma_xor_apart;
use crate::keccak_prove::v0::lemma_xor_assoc;
use vstd::prelude::*;

verus! {

/// Every term of an operand counts: the value of two lists of terms put together is the XOR of their
/// values, and that of one term is the term's word.
pub proof fn lemma_operand_joins(
    words: Seq<Word>,
    a: Seq<ShiftedValueIndex>,
    b: Seq<ShiftedValueIndex>,
)
    ensures
        operand_value(words, a + b) == operand_value(words, a) ^ operand_value(words, b),
        operand_value(words, Seq::empty()) == 0,
        b.len() == 1 ==> operand_value(words, b) == term_value(words, b[0]),
    decreases b.len(),
{
    if b.len() == 0 {
        assert(a + b =~= a);
        lemma_xor_apart(operand_value(words, a), 0, 0);
    } else {
        let c = b.drop_last();
        lemma_operand_joins(words, a, c);
        assert((a + b).drop_last() =~= a + c);
        assert((a + b).last() == b.last());
        let t = term_value(words, b.last());
        lemma_xor_assoc(operand_value(words, a), operand_value(words, c), t);
        lemma_xor_apart(t, 0, 0);
    }
}

/// A MUL constraint holds exactly where its last two operands are the high and the low word of the
/// product of the first two.
pub proof fn lemma_mul_is_product(words: Seq<Word>, c: MulConstraint)
    ensures
        ({
            let product = operand_value(words, c.a@) * operand_value(words, c.b@);
            mul_holds(words, c) == (operand_value(words, c.hi@) == product
                / 0x1_0000_0000_0000_0000 && operand_value(words, c.lo@) == product
                % 0x1_0000_0000_0000_0000)
        }),
{
    let product = operand_value(words, c.a@) * operand_value(words, c.b@);
    let (hi, lo) = (operand_value(words, c.hi@), operand_value(words, c.lo@));
    assert(product >= 0) by (nonlinear_arith)
        requires
            product == operand_value(words, c.a@) * operand_value(words, c.b@),
            operand_value(words, c.a@) >= 0,
            operand_value(words, c.b@) >= 0,
    ;
}

/// Every constraint of a system counts: a system with one more constraint is satisfied exactly where
/// the system is and the constraint holds.
pub proof fn lemma_each_constraint_counts(
    cs: ConstraintSystem,
    with_and: ConstraintSystem,
    with_mul: ConstraintSystem,
    c: AndConstraint,
    d: MulConstraint,
    words: Seq<Word>,
)
    requires
        with_and.and_constraints@ == cs.and_constraints@.push(c),
        with_and.mul_constraints@ == cs.mul_constraints@,
        with_mul.and_constraints@ == cs.and_constraints@,
        with_mul.mul_constraints@ == cs.mul_constraints@.push(d),
    ensures
        with_and.satisfied_by(words) == (cs.satisfied_by(words) && and_holds(words, c)),
        with_mul.satisfied_by(words) == (cs.satisfied_by(words) && mul_holds(words, d)),
{
    let (n, m) = (cs.and_constraints@.len(), cs.mul_constraints@.len());
    if with_and.satisfied_by(words) {
        assert(and_holds(words, with_and.and_constraints@[n as int]));
        assert forall|i: int| 0 <= i < n implies and_holds(
            words,
            #[trigger] cs.and_constraints@[i],
        ) by {
            assert(and_holds(words, with_and.and_constraints@[i]));
        }
    }
    if with_mul.satisfied_by(words) {
        assert(mul_holds(words, with_mul.mul_constraints@[m as int]));
        assert forall|i: int| 0 <= i < m implies mul_holds(
            words,
            #[trigger] cs.mul_constraints@[i],
        ) by {
            assert(mul_holds(words, with_mul.mul_constraints@[i]));
        }
    }
    if cs.satisfied_by(words) && and_holds(words, c) {
        assert forall|i: int| 0 <= i < n + 1 implies and_holds(
            words,
            #[trigger] with_and.and_constraints@[i],
        ) by {
            if i < n {
                assert(and_holds(words, cs.and_constraints@[i]));
            }
        }
    }
    if cs.satisfied_by(words) && mul_holds(words, d) {
        assert forall|i: int| 0 <= i < m + 1 implies mul_holds(
            words,
            #[trigger] with_mul.mul_constraints@[i],
        ) by {
            if i < m {
                assert(mul_holds(words, cs.mul_constraints@[i]));
            }
        }
    }
}

/// Padding changes nothing: a padded system is satisfied by exactly the same words, and its
/// constraints stand where they stood.
pub proof fn lemma_padding_keeps_meaning(
    pre: ConstraintSystem,
    post: ConstraintSystem,
    words: Seq<Word>,
)
    requires
        is_padded_and(pre.and_constraints@, post.and_constraints@),
        is_padded_mul(pre.mul_constraints@, post.mul_constraints@),
    ensures
        post.satisfied_by(words) == pre.satisfied_by(words),
        forall|i: int|
            0 <= i < pre.and_constraints@.len() ==> #[trigger] post.and_constraints@[i]
                == pre.and_constraints@[i],
        forall|i: int|
            0 <= i < pre.mul_constraints@.len() ==> #[trigger] post.mul_constraints@[i]
                == pre.mul_constraints@[i],
{
    let (a, m) = (pre.and_constraints@, pre.mul_constraints@);
    let (a2, m2) = (post.and_constraints@, post.mul_constraints@);
    assert forall|i: int| 0 <= i < a.len() implies #[trigger] a2[i] == a[i] by {
        assert(a[i] == a2.subrange(0, a.len() as int)[i]);
    }
    assert forall|i: int| 0 <= i < m.len() implies #[trigger] m2[i] == m[i] by {
        assert(m[i] == m2.subrange(0, m.len() as int)[i]);
    }
    if pre.satisfied_by(words) {
        assert forall|i: int| 0 <= i < a2.len() implies and_holds(words, #[trigger] a2[i]) by {
            if i < a.len() {
                assert(and_holds(words, a[i]));
            } else {
                assert(is_empty_and(a2[i]));
                lemma_xor_assoc(0, 0, 0);
            }
        }
        assert forall|i: int| 0 <= i < m2.len() implies mul_holds(words, #[trigger] m2[i]) by {
            if i < m.len() {
                assert(mul_holds(words, m[i]));
            } else {
                assert(is_empty_mul(m2[i]));
                assert(0u64 * 0u64 == 0) by (nonlinear_arith);
            }
        }
    }
    if post.satisfied_by(words) {
        assert forall|i: int| 0 <= i < a.len() implies and_holds(words, #[trigger] a[i]) by {
            assert(and_holds(words, a2[i]));
        }
        assert forall|i: int| 0 <= i < m.len() implies mul_holds(words, #[trigger] m[i]) by {
            assert(mul_holds(words, m2[i]));
        }
    }
}

} // verus!
