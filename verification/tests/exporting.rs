//! The text form of constraint systems.
use binius64::ceck::ast::{
    AssertEqv, AssertNotEqv, Constraint, ConstraintSet, OperandExpr, ShiftOp, Term, TestFile,
    TestItem, XorExpr,
};
use binius64::ceck::export::{export_assert_eqv, export_constraint_set};
use binius64::constraint_system::{
    AndConstraint, ConstraintSystem, MulConstraint, ShiftVariant, ShiftedValueIndex, ValueIndex,
    ValueVecLayout, Word,
};

fn layout(n_const: usize, n_inout: usize, offset_witness: usize, total: usize) -> ValueVecLayout {
    ValueVecLayout {
        n_const,
        n_inout,
        n_witness: 3,
        n_internal: 0,
        offset_inout: n_const,
        offset_witness,
        committed_total_len: total,
        n_scratch: 0,
    }
}

fn plain(i: u32) -> Vec<ShiftedValueIndex> {
    vec![ShiftedValueIndex::plain(ValueIndex(i))]
}

fn term(i: u32, shift_variant: ShiftVariant, amount: usize) -> ShiftedValueIndex {
    ShiftedValueIndex { value_index: ValueIndex(i), shift_variant, amount }
}

#[test]
fn test_export_simple_and() {
    let cs = ConstraintSystem {
        constants: vec![Word(0)],
        value_vec_layout: layout(1, 0, 2, 8),
        and_constraints: vec![AndConstraint { a: plain(2), b: plain(3), c: plain(4) }],
        mul_constraints: vec![],
    };

    let exported = export_constraint_set(&cs);
    assert!(exported.contains("(and $w0 $w1 $w2)"));
}

#[test]
fn test_export_with_shifts() {
    let cs = ConstraintSystem {
        constants: vec![Word(u64::MAX)],
        value_vec_layout: layout(1, 0, 2, 4),
        and_constraints: vec![AndConstraint {
            a: vec![term(2, ShiftVariant::Rotr32, 16)],
            b: plain(0),
            c: plain(3),
        }],
        mul_constraints: vec![],
    };

    let exported = export_constraint_set(&cs);
    assert!(exported.contains("(ror32 $w0 16)"), "exported: {exported}");
    assert!(exported.contains("0xffffffffffffffff"), "exported: {exported}");
}

#[test]
fn export_of_a_whole_system() {
    let cs = ConstraintSystem {
        constants: vec![Word(0x1234), Word(0xdead_beef_0000_00ff)],
        value_vec_layout: layout(2, 1, 16, 32),
        and_constraints: vec![AndConstraint {
            a: vec![term(16, ShiftVariant::Sll, 3), term(17, ShiftVariant::Slr, 0)],
            b: vec![],
            c: plain(2),
        }],
        mul_constraints: vec![MulConstraint {
            a: vec![term(0, ShiftVariant::Sar, 63)],
            b: vec![term(1, ShiftVariant::Rotr, 10)],
            lo: vec![term(7, ShiftVariant::Sll32, 1)],
            hi: vec![term(116, ShiftVariant::Srl32, 2), term(3, ShiftVariant::Sra32, 31)],
        }],
    };
    let expected = "(constraint_set\n  (and (xor (sll $w0 3) $w1) (xor ) $io0)\n  \
                    (mul (sar 0x0000000000001234 63) (ror 0xdeadbeef000000ff 10) \
                    (xor (slr32 $w100 2) (sar32 $internal3 31)) (sll32 $internal7 1))\n)";
    assert_eq!(export_constraint_set(&cs), expected);
    assert_eq!(
        export_assert_eqv(&cs, &cs),
        format!("(assert_eqv\n  {expected}\n  {expected}\n)")
    );
}

#[test]
fn operators_stand_for_their_variants() {
    let pairs = [
        (ShiftOp::Sll, ShiftVariant::Sll),
        (ShiftOp::Slr, ShiftVariant::Slr),
        (ShiftOp::Sar, ShiftVariant::Sar),
        (ShiftOp::Ror, ShiftVariant::Rotr),
        (ShiftOp::Sll32, ShiftVariant::Sll32),
        (ShiftOp::Slr32, ShiftVariant::Srl32),
        (ShiftOp::Sar32, ShiftVariant::Sra32),
        (ShiftOp::Ror32, ShiftVariant::Rotr32),
    ];
    for (op, variant) in pairs {
        assert_eq!(op.to_shift_variant(), variant);
    }
}

#[test]
fn syntax_trees_are_plain_values() {
    let term = Term::Shifted { wire: "$w0".to_string(), op: ShiftOp::Ror, amount: 5 };
    let set = ConstraintSet {
        constraints: vec![
            Constraint::And {
                a: OperandExpr::Term(Term::Literal(7)),
                b: OperandExpr::Xor(XorExpr { terms: vec![term, Term::Wire("$io1".to_string())] }),
                c: OperandExpr::Term(Term::Wire("$w2".to_string())),
            },
        ],
    };
    let file = TestFile {
        assertions: vec![
            TestItem::AssertEqv(AssertEqv { lhs: set.clone(), rhs: set.clone() }),
            TestItem::AssertNotEqv(AssertNotEqv { lhs: set.clone(), rhs: set }),
        ],
    };
    assert_eq!(file.assertions.len(), 2);
    match &file.assertions[0] {
        TestItem::AssertEqv(a) => match &a.lhs.constraints[0] {
            Constraint::And { b: OperandExpr::Xor(x), .. } => assert_eq!(x.terms.len(), 2),
            _ => panic!("an AND constraint of an exclusive or"),
        },
        TestItem::AssertNotEqv(_) => panic!("an equivalence comes first"),
    }
}
