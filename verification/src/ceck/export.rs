//! Exports constraint systems in the `.ceck` S-expression format.
//!
//! This enables equivalence checking between compiled circuits and reference specifications.
use crate::constraint_system::{
    AndConstraint, ConstraintSystem, MulConstraint, Operand, ShiftVariant, ShiftedValueIndex,
};
use vstd::prelude::*;
use vstd::string::*;

verus! {

/// The digit of a number below 16.
pub open spec fn digit_char(d: int) -> char {
    if d == 0 {
        '0'
    } else if d == 1 {
        '1'
    } else if d == 2 {
        '2'
    } else if d == 3 {
        '3'
    } else if d == 4 {
        '4'
    } else if d == 5 {
        '5'
    } else if d == 6 {
        '6'
    } else if d == 7 {
        '7'
    } else if d == 8 {
        '8'
    } else if d == 9 {
        '9'
    } else if d == 10 {
        'a'
    } else if d == 11 {
        'b'
    } else if d == 12 {
        'c'
    } else if d == 13 {
        'd'
    } else if d == 14 {
        'e'
    } else {
        'f'
    }
}

/// A number in decimal.
pub open spec fn decimal(n: nat) -> Seq<char>
    decreases n,
{
    if n < 10 {
        seq![digit_char(n as int)]
    } else {
        decimal(n / 10).push(digit_char((n % 10) as int))
    }
}

/// The lowest `k` hexadecimal digits of a number.
pub open spec fn hex(n: nat, k: nat) -> Seq<char>
    decreases k,
{
    if k == 0 {
        Seq::empty()
    } else {
        hex(n / 16, (k - 1) as nat).push(digit_char((n % 16) as int))
    }
}

/// The name of a value: a constant as 16 hexadecimal digits, a public input as `$io` and a witness
/// as `$w`, each with its index.
pub open spec fn value_text(cs: ConstraintSystem, idx: int) -> Seq<char> {
    let n_const = cs.constants@.len();
    let n_inout = cs.value_vec_layout.n_inout;
    let witness_start = cs.value_vec_layout.offset_witness;
    if idx < n_const {
        "0x"@ + hex(cs.constants@[idx].0 as nat, 16)
    } else if idx < n_const + n_inout {
        "$io"@ + decimal((idx - n_const) as nat)
    } else if idx >= witness_start {
        "$w"@ + decimal((idx - witness_start) as nat)
    } else {
        "$internal"@ + decimal(idx as nat)
    }
}

/// The name of a shift.
pub open spec fn op_text(v: ShiftVariant) -> Seq<char> {
    match v {
        ShiftVariant::Sll => "sll"@,
        ShiftVariant::Slr => "slr"@,
        ShiftVariant::Sar => "sar"@,
        ShiftVariant::Rotr => "ror"@,
        ShiftVariant::Sll32 => "sll32"@,
        ShiftVariant::Srl32 => "slr32"@,
        ShiftVariant::Sra32 => "sar32"@,
        ShiftVariant::Rotr32 => "ror32"@,
    }
}

/// A term: the name of its value, or a shift of it.
pub open spec fn term_text(cs: ConstraintSystem, sv: ShiftedValueIndex) -> Seq<char> {
    let base = value_text(cs, sv.value_index.0 as int);
    if sv.amount == 0 {
        base
    } else {
        "("@ + op_text(sv.shift_variant) + " "@ + base + " "@ + decimal(sv.amount as nat) + ")"@
    }
}

/// The terms of an operand, with spaces between them.
pub open spec fn terms_text(cs: ConstraintSystem, op: Seq<ShiftedValueIndex>) -> Seq<char>
    decreases op.len(),
{
    if op.len() == 0 {
        Seq::empty()
    } else if op.len() == 1 {
        term_text(cs, op[0])
    } else {
        terms_text(cs, op.drop_last()) + " "@ + term_text(cs, op.last())
    }
}

/// An operand: its only term, or the exclusive or of its terms.
pub open spec fn operand_text(cs: ConstraintSystem, op: Seq<ShiftedValueIndex>) -> Seq<char> {
    if op.len() == 1 {
        term_text(cs, op[0])
    } else {
        "(xor "@ + terms_text(cs, op) + ")"@
    }
}

/// The line of an AND constraint.
pub open spec fn and_text(cs: ConstraintSystem, c: AndConstraint) -> Seq<char> {
    "  (and "@ + operand_text(cs, c.a@) + " "@ + operand_text(cs, c.b@) + " "@ + operand_text(
        cs,
        c.c@,
    ) + ")\n"@
}

/// The line of a MUL constraint.
pub open spec fn mul_text(cs: ConstraintSystem, c: MulConstraint) -> Seq<char> {
    "  (mul "@ + operand_text(cs, c.a@) + " "@ + operand_text(cs, c.b@) + " "@ + operand_text(
        cs,
        c.hi@,
    ) + " "@ + operand_text(cs, c.lo@) + ")\n"@
}

/// The lines of the first `n` AND constraints.
pub open spec fn ands_text(cs: ConstraintSystem, n: nat) -> Seq<char>
    decreases n,
{
    if n == 0 {
        Seq::empty()
    } else {
        ands_text(cs, (n - 1) as nat) + and_text(cs, cs.and_constraints@[n - 1])
    }
}

/// The lines of the first `n` MUL constraints.
pub open spec fn muls_text(cs: ConstraintSystem, n: nat) -> Seq<char>
    decreases n,
{
    if n == 0 {
        Seq::empty()
    } else {
        muls_text(cs, (n - 1) as nat) + mul_text(cs, cs.mul_constraints@[n - 1])
    }
}

/// The text of a constraint system.
pub open spec fn constraint_set_text(cs: ConstraintSystem) -> Seq<char> {
    "(constraint_set\n"@ + ands_text(cs, cs.and_constraints@.len()) + muls_text(
        cs,
        cs.mul_constraints@.len(),
    ) + ")"@
}

/// Whether the number of public words of a system is a machine number.
pub open spec fn exportable(cs: ConstraintSystem) -> bool {
    cs.constants@.len() + cs.value_vec_layout.n_inout <= usize::MAX
}

/// Appends the digit of a number below 16.
fn push_digit(out: &mut String, d: u64)
    requires
        d < 16,
    ensures
        final(out)@ == old(out)@.push(digit_char(d as int)),
{
    proof {
        reveal_strlit("0");
        reveal_strlit("1");
        reveal_strlit("2");
        reveal_strlit("3");
        reveal_strlit("4");
        reveal_strlit("5");
        reveal_strlit("6");
        reveal_strlit("7");
        reveal_strlit("8");
        reveal_strlit("9");
        reveal_strlit("a");
        reveal_strlit("b");
        reveal_strlit("c");
        reveal_strlit("d");
        reveal_strlit("e");
        reveal_strlit("f");
    }
    let s: &str = match d {
        0 => "0",
        1 => "1",
        2 => "2",
        3 => "3",
        4 => "4",
        5 => "5",
        6 => "6",
        7 => "7",
        8 => "8",
        9 => "9",
        10 => "a",
        11 => "b",
        12 => "c",
        13 => "d",
        14 => "e",
        _ => "f",
    };
    assert(s@ =~= seq![digit_char(d as int)]);
    out.append(s);
    assert(out@ =~= old(out)@.push(digit_char(d as int)));
}

/// Appends a number in decimal.
fn push_decimal(out: &mut String, n: usize)
    ensures
        final(out)@ == old(out)@ + decimal(n as nat),
    decreases n,
{
    if n < 10 {
        push_digit(out, n as u64);
        assert(out@ =~= old(out)@ + decimal(n as nat));
    } else {
        push_decimal(out, n / 10);
        push_digit(out, (n % 10) as u64);
        assert(out@ =~= old(out)@ + decimal(n as nat));
    }
}

/// Appends the lowest `k` hexadecimal digits of a number.
fn push_hex(out: &mut String, n: u64, k: usize)
    ensures
        final(out)@ == old(out)@ + hex(n as nat, k as nat),
    decreases k,
{
    if k > 0 {
        push_hex(out, n / 16, k - 1);
        push_digit(out, n % 16);
    }
    assert(out@ =~= old(out)@ + hex(n as nat, k as nat));
}

/// Appends the name of a value.
fn format_value_index(out: &mut String, cs: &ConstraintSystem, idx: usize)
    requires
        exportable(*cs),
    ensures
        final(out)@ == old(out)@ + value_text(*cs, idx as int),
{
    let n_const: usize = cs.constants.len();
    let n_inout: usize = cs.value_vec_layout.n_inout;
    let witness_start: usize = cs.value_vec_layout.offset_witness;
    if idx < n_const {
        out.append("0x");
        push_hex(out, cs.constants[idx].0, 16);
    } else if idx < n_const + n_inout {
        out.append("$io");
        push_decimal(out, idx - n_const);
    } else if idx >= witness_start {
        out.append("$w");
        push_decimal(out, idx - witness_start);
    } else {
        out.append("$internal");
        push_decimal(out, idx);
    }
    assert(out@ =~= old(out)@ + value_text(*cs, idx as int));
}

/// Appends a term.
fn format_shifted_value(out: &mut String, cs: &ConstraintSystem, sv: &ShiftedValueIndex)
    requires
        exportable(*cs),
    ensures
        final(out)@ == old(out)@ + term_text(*cs, *sv),
{
    if sv.amount == 0 {
        format_value_index(out, cs, sv.value_index.0 as usize);
    } else {
        let op: &str = match sv.shift_variant {
            ShiftVariant::Sll => "sll",
            ShiftVariant::Slr => "slr",
            ShiftVariant::Sar => "sar",
            ShiftVariant::Rotr => "ror",
            ShiftVariant::Sll32 => "sll32",
            ShiftVariant::Srl32 => "slr32",
            ShiftVariant::Sra32 => "sar32",
            ShiftVariant::Rotr32 => "ror32",
        };
        out.append("(");
        out.append(op);
        out.append(" ");
        format_value_index(out, cs, sv.value_index.0 as usize);
        out.append(" ");
        push_decimal(out, sv.amount);
        out.append(")");
    }
    assert(out@ =~= old(out)@ + term_text(*cs, *sv));
}

/// Appends an operand.
fn format_operand(out: &mut String, cs: &ConstraintSystem, operand: &Operand)
    requires
        exportable(*cs),
    ensures
        final(out)@ == old(out)@ + operand_text(*cs, operand@),
{
    let n: usize = operand.len();
    if n == 1 {
        format_shifted_value(out, cs, &operand[0]);
    } else {
        out.append("(xor ");
        let ghost start = out@;
        for i in 0..n
            invariant
                exportable(*cs),
                n == operand@.len(),
                out@ == start + terms_text(*cs, operand@.take(i as int)),
        {
            if i > 0 {
                out.append(" ");
            }
            format_shifted_value(out, cs, &operand[i]);
            proof {
                let t = operand@.take(i + 1);
                assert(t.drop_last() =~= operand@.take(i as int));
                assert(t.last() == operand@[i as int]);
                assert(out@ =~= start + terms_text(*cs, t));
            }
        }
        assert(operand@.take(n as int) =~= operand@);
        out.append(")");
    }
    assert(out@ =~= old(out)@ + operand_text(*cs, operand@));
}

/// Appends the line of an AND constraint.
fn format_and(out: &mut String, cs: &ConstraintSystem, c: &AndConstraint)
    requires
        exportable(*cs),
    ensures
        final(out)@ == old(out)@ + and_text(*cs, *c),
{
    let ghost start = out@;
    let ghost t0 = "  (and "@;
    out.append("  (and ");
    format_operand(out, cs, &c.a);
    let ghost u0 = t0 + operand_text(*cs, c.a@);
    assert(out@ =~= start + u0);
    out.append(" ");
    let ghost t1 = u0 + " "@;
    assert(out@ =~= start + t1);
    format_operand(out, cs, &c.b);
    let ghost u1 = t1 + operand_text(*cs, c.b@);
    assert(out@ =~= start + u1);
    out.append(" ");
    let ghost t2 = u1 + " "@;
    assert(out@ =~= start + t2);
    format_operand(out, cs, &c.c);
    let ghost u2 = t2 + operand_text(*cs, c.c@);
    assert(out@ =~= start + u2);
    out.append(")\n");
    assert(out@ =~= start + and_text(*cs, *c));
}

/// Appends the line of a MUL constraint.
fn format_mul(out: &mut String, cs: &ConstraintSystem, c: &MulConstraint)
    requires
        exportable(*cs),
    ensures
        final(out)@ == old(out)@ + mul_text(*cs, *c),
{
    let ghost start = out@;
    let ghost t0 = "  (mul "@;
    out.append("  (mul ");
    format_operand(out, cs, &c.a);
    let ghost u0 = t0 + operand_text(*cs, c.a@);
    assert(out@ =~= start + u0);
    out.append(" ");
    let ghost t1 = u0 + " "@;
    assert(out@ =~= start + t1);
    format_operand(out, cs, &c.b);
    let ghost u1 = t1 + operand_text(*cs, c.b@);
    assert(out@ =~= start + u1);
    out.append(" ");
    let ghost t2 = u1 + " "@;
    assert(out@ =~= start + t2);
    format_operand(out, cs, &c.hi);
    let ghost u2 = t2 + operand_text(*cs, c.hi@);
    assert(out@ =~= start + u2);
    out.append(" ");
    let ghost t3 = u2 + " "@;
    assert(out@ =~= start + t3);
    format_operand(out, cs, &c.lo);
    let ghost u3 = t3 + operand_text(*cs, c.lo@);
    assert(out@ =~= start + u3);
    out.append(")\n");
    assert(out@ =~= start + mul_text(*cs, *c));
}

/// Exports a constraint system as an S-expression.
///
/// Constants are written as `0x` and 16 hexadecimal digits, witnesses as `$w{i}` where `i` is the
/// witness index.
pub fn export_constraint_set(cs: &ConstraintSystem) -> (out: String)
    requires
        exportable(*cs),
    ensures
        out@ == constraint_set_text(*cs),
{
    let mut out = String::from_str("(constraint_set\n");
    let ghost head = out@;
    let n_and: usize = cs.and_constraints.len();
    assert(out@ =~= head + ands_text(*cs, 0));
    for i in 0..n_and
        invariant
            exportable(*cs),
            n_and == cs.and_constraints@.len(),
            out@ == head + ands_text(*cs, i as nat),
    {
        format_and(&mut out, cs, &cs.and_constraints[i]);
        assert(out@ =~= head + ands_text(*cs, (i + 1) as nat));
    }
    let ghost head = out@;
    let n_mul: usize = cs.mul_constraints.len();
    assert(out@ =~= head + muls_text(*cs, 0));
    for i in 0..n_mul
        invariant
            exportable(*cs),
            n_mul == cs.mul_constraints@.len(),
            out@ == head + muls_text(*cs, i as nat),
    {
        format_mul(&mut out, cs, &cs.mul_constraints[i]);
        assert(out@ =~= head + muls_text(*cs, (i + 1) as nat));
    }
    out.append(")");
    out
}

/// The text of the claim that two constraint systems are equivalent.
pub open spec fn assert_eqv_text(lhs: ConstraintSystem, rhs: ConstraintSystem) -> Seq<char> {
    "(assert_eqv\n  "@ + constraint_set_text(lhs) + "\n  "@ + constraint_set_text(rhs) + "\n)"@
}

/// Exports two constraint systems wrapped in an `(assert_eqv ...)` block.
pub fn export_assert_eqv(lhs: &ConstraintSystem, rhs: &ConstraintSystem) -> (out: String)
    requires
        exportable(*lhs),
        exportable(*rhs),
    ensures
        out@ == "(assert_eqv\n  "@ + constraint_set_text(*lhs) + "\n  "@ + constraint_set_text(*rhs)
            + "\n)"@,
        out@ == assert_eqv_text(*lhs, *rhs),
{
    let mut out = String::from_str("(assert_eqv\n  ");
    let left = export_constraint_set(lhs);
    out.append(left.as_str());
    out.append("\n  ");
    let right = export_constraint_set(rhs);
    out.append(right.as_str());
    out.append("\n)");
    out
}

} // verus!
