//! Laws of the exported text: which line holds which constraint, how an operand lists its terms, and
//! that numbers and names can be read back.
use super::export::{
    and_text, ands_text, assert_eqv_text, constraint_set_text, decimal, digit_char, hex, mul_text, muls_text,
    op_text, operand_text, term_text, terms_text, value_text,
};
use crate::constraint_system::{
    AndConstraint, ConstraintSystem, MulConstraint, ShiftVariant, ShiftedValueIndex,
};
use vstd::arithmetic::power::pow;
use vstd::prelude::*;
use vstd::string::*;

verus! {

/// The lines of a text: what stands before, between and behind its newlines.
pub open spec fn lines(text: Seq<char>) -> Seq<Seq<char>>
    decreases text.len(),
{
    if text.len() == 0 {
        seq![Seq::empty()]
    } else {
        let before = lines(text.drop_last());
        if text.last() == '\n' {
            before.push(Seq::empty())
        } else {
            before.drop_last().push(before.last().push(text.last()))
        }
    }
}

/// Whether a text holds no newline.
pub open spec fn on_one_line(text: Seq<char>) -> bool {
    forall|i: int| 0 <= i < text.len() ==> #[trigger] text[i] != '\n'
}

/// An AND constraint as it is written.
pub open spec fn and_line(cs: ConstraintSystem, c: AndConstraint) -> Seq<char> {
    "  (and "@ + operand_text(cs, c.a@) + " "@ + operand_text(cs, c.b@) + " "@ + operand_text(
        cs,
        c.c@,
    ) + ")"@
}

/// A MUL constraint as it is written: the high word of the product before the low one.
pub open spec fn mul_line(cs: ConstraintSystem, c: MulConstraint) -> Seq<char> {
    "  (mul "@ + operand_text(cs, c.a@) + " "@ + operand_text(cs, c.b@) + " "@ + operand_text(
        cs,
        c.hi@,
    ) + " "@ + operand_text(cs, c.lo@) + ")"@
}

proof fn lemma_lines_nonempty(text: Seq<char>)
    ensures
        lines(text).len() > 0,
    decreases text.len(),
{
    if text.len() > 0 {
        lemma_lines_nonempty(text.drop_last());
    }
}

proof fn lemma_lines_extend(a: Seq<char>, b: Seq<char>)
    requires
        on_one_line(b),
    ensures
        lines(a + b) == lines(a).drop_last().push(lines(a).last() + b),
    decreases b.len(),
{
    lemma_lines_nonempty(a);
    if b.len() == 0 {
        assert(a + b =~= a);
        assert(lines(a).last() + b =~= lines(a).last());
        assert(lines(a).drop_last().push(lines(a).last()) =~= lines(a));
    } else {
        let c = b.drop_last();
        assert forall|i: int| 0 <= i < c.len() implies #[trigger] c[i] != '\n' by {
            assert(c[i] == b[i]);
        }
        lemma_lines_extend(a, c);
        assert((a + b).drop_last() =~= a + c);
        assert(b[b.len() - 1] != '\n');
        assert((a + b).last() == b.last());
        let before = lines(a + c);
        assert(before.drop_last() =~= lines(a).drop_last());
        assert((lines(a).last() + c).push(b.last()) =~= lines(a).last() + b);
    }
}

/// A text that ends in an unfinished line, with one more line and its newline.
proof fn lemma_lines_add(a: Seq<char>, line: Seq<char>)
    requires
        on_one_line(line),
        lines(a).last() == Seq::<char>::empty(),
    ensures
        lines(a + line.push('\n')) == lines(a).drop_last().push(line).push(Seq::empty()),
{
    lemma_lines_extend(a, line);
    let b = a + line.push('\n');
    assert(b.drop_last() =~= a + line);
    assert(Seq::<char>::empty() + line =~= line);
}

proof fn lemma_join(a: Seq<char>, b: Seq<char>)
    requires
        on_one_line(a),
        on_one_line(b),
    ensures
        on_one_line(a + b),
{
}

proof fn lemma_decimal_line(n: nat)
    ensures
        on_one_line(decimal(n)),
    decreases n,
{
    if n >= 10 {
        lemma_decimal_line(n / 10);
    }
}

proof fn lemma_hex_line(n: nat, k: nat)
    ensures
        on_one_line(hex(n, k)),
    decreases k,
{
    if k > 0 {
        lemma_hex_line(n / 16, (k - 1) as nat);
    }
}

proof fn lemma_value_line(cs: ConstraintSystem, idx: int)
    ensures
        on_one_line(value_text(cs, idx)),
{
    reveal_strlit("0x");
    reveal_strlit("$io");
    reveal_strlit("$w");
    reveal_strlit("$internal");
    let n_const = cs.constants@.len();
    lemma_hex_line(cs.constants@[idx].0 as nat, 16);
    lemma_decimal_line((idx - n_const) as nat);
    lemma_decimal_line((idx - cs.value_vec_layout.offset_witness) as nat);
    lemma_decimal_line(idx as nat);
}

proof fn lemma_term_line(cs: ConstraintSystem, sv: ShiftedValueIndex)
    ensures
        on_one_line(term_text(cs, sv)),
{
    reveal_strlit("(");
    reveal_strlit(" ");
    reveal_strlit(")");
    reveal_strlit("sll");
    reveal_strlit("slr");
    reveal_strlit("sar");
    reveal_strlit("ror");
    reveal_strlit("sll32");
    reveal_strlit("slr32");
    reveal_strlit("sar32");
    reveal_strlit("ror32");
    lemma_value_line(cs, sv.value_index.0 as int);
    lemma_decimal_line(sv.amount as nat);
    let base = value_text(cs, sv.value_index.0 as int);
    let op = op_text(sv.shift_variant);
    lemma_join("("@, op);
    lemma_join("("@ + op, " "@);
    lemma_join("("@ + op + " "@, base);
    lemma_join("("@ + op + " "@ + base, " "@);
    lemma_join("("@ + op + " "@ + base + " "@, decimal(sv.amount as nat));
}

proof fn lemma_terms_line(cs: ConstraintSystem, op: Seq<ShiftedValueIndex>)
    ensures
        on_one_line(terms_text(cs, op)),
    decreases op.len(),
{
    reveal_strlit(" ");
    if op.len() == 1 {
        lemma_term_line(cs, op[0]);
    } else if op.len() > 1 {
        lemma_terms_line(cs, op.drop_last());
        lemma_term_line(cs, op.last());
        lemma_join(terms_text(cs, op.drop_last()), " "@);
    }
}

proof fn lemma_operand_line(cs: ConstraintSystem, op: Seq<ShiftedValueIndex>)
    ensures
        on_one_line(operand_text(cs, op)),
{
    reveal_strlit("(xor ");
    reveal_strlit(")");
    if op.len() == 1 {
        lemma_term_line(cs, op[0]);
    } else {
        lemma_terms_line(cs, op);
        lemma_join("(xor "@, terms_text(cs, op));
    }
}

proof fn lemma_and_line(cs: ConstraintSystem, c: AndConstraint)
    ensures
        on_one_line(and_line(cs, c)),
        and_text(cs, c) == and_line(cs, c).push('\n'),
        and_line(cs, c).len() > 3,
        and_line(cs, c)[3] == 'a',
{
    reveal_strlit("  (and ");
    reveal_strlit(" ");
    reveal_strlit(")");
    reveal_strlit(")\n");
    lemma_operand_line(cs, c.a@);
    lemma_operand_line(cs, c.b@);
    lemma_operand_line(cs, c.c@);
    let t0 = "  (and "@ + operand_text(cs, c.a@);
    lemma_join("  (and "@, operand_text(cs, c.a@));
    lemma_join(t0, " "@);
    lemma_join(t0 + " "@, operand_text(cs, c.b@));
    let t1 = t0 + " "@ + operand_text(cs, c.b@);
    lemma_join(t1, " "@);
    lemma_join(t1 + " "@, operand_text(cs, c.c@));
    let t2 = t1 + " "@ + operand_text(cs, c.c@);
    assert(and_line(cs, c) == t2 + ")"@);
    assert(and_text(cs, c) =~= and_line(cs, c).push('\n'));
}

proof fn lemma_mul_line(cs: ConstraintSystem, c: MulConstraint)
    ensures
        on_one_line(mul_line(cs, c)),
        mul_text(cs, c) == mul_line(cs, c).push('\n'),
        mul_line(cs, c).len() > 3,
        mul_line(cs, c)[3] == 'm',
{
    reveal_strlit("  (mul ");
    reveal_strlit(" ");
    reveal_strlit(")");
    reveal_strlit(")\n");
    lemma_operand_line(cs, c.a@);
    lemma_operand_line(cs, c.b@);
    lemma_operand_line(cs, c.hi@);
    lemma_operand_line(cs, c.lo@);
    let t0 = "  (mul "@ + operand_text(cs, c.a@);
    lemma_join("  (mul "@, operand_text(cs, c.a@));
    lemma_join(t0, " "@);
    lemma_join(t0 + " "@, operand_text(cs, c.b@));
    let t1 = t0 + " "@ + operand_text(cs, c.b@);
    lemma_join(t1, " "@);
    lemma_join(t1 + " "@, operand_text(cs, c.hi@));
    let t2 = t1 + " "@ + operand_text(cs, c.hi@);
    lemma_join(t2, " "@);
    lemma_join(t2 + " "@, operand_text(cs, c.lo@));
    let t3 = t2 + " "@ + operand_text(cs, c.lo@);
    assert(mul_line(cs, c) == t3 + ")"@);
    assert(mul_text(cs, c) =~= mul_line(cs, c).push('\n'));
}

proof fn lemma_head_lines()
    ensures
        lines("(constraint_set\n"@) == seq!["(constraint_set"@, Seq::<char>::empty()],
{
    reveal_strlit("(constraint_set\n");
    reveal_strlit("(constraint_set");
    let none = Seq::<char>::empty();
    let name = "(constraint_set"@;
    assert(lines(none) == seq![none]);
    assert(on_one_line(name));
    lemma_lines_add(none, name);
    assert("(constraint_set\n"@ =~= none + name.push('\n'));
    assert(seq![none].drop_last() =~= Seq::<Seq<char>>::empty());
    assert(Seq::<Seq<char>>::empty().push(name).push(none) =~= seq![name, none]);
}

proof fn lemma_and_lines(cs: ConstraintSystem, n: nat)
    requires
        n <= cs.and_constraints@.len(),
    ensures
        ({
            let ls = lines("(constraint_set\n"@ + ands_text(cs, n));
            &&& ls.len() == n + 2
            &&& ls[0] == "(constraint_set"@
            &&& ls.last() == Seq::<char>::empty()
            &&& forall|i: int|
                0 <= i < n ==> #[trigger] ls[i + 1] == and_line(cs, cs.and_constraints@[i])
        }),
    decreases n,
{
    let head = "(constraint_set\n"@;
    let text = head + ands_text(cs, n);
    let ls = lines(text);
    if n == 0 {
        lemma_head_lines();
        assert(text =~= head);
    } else {
        let m = (n - 1) as nat;
        lemma_and_lines(cs, m);
        let c = cs.and_constraints@[m as int];
        lemma_and_line(cs, c);
        let before = head + ands_text(cs, m);
        lemma_lines_add(before, and_line(cs, c));
        assert(text =~= before + and_line(cs, c).push('\n'));
        let old_ls = lines(before);
        assert forall|i: int| 0 <= i < n implies #[trigger] ls[i + 1] == and_line(
            cs,
            cs.and_constraints@[i],
        ) by {
            if i < m {
                assert(ls[i + 1] == old_ls[i + 1]);
            }
        }
        assert(ls[0] == old_ls[0]);
    }
}

proof fn lemma_mul_lines(cs: ConstraintSystem, n: nat)
    requires
        n <= cs.mul_constraints@.len(),
    ensures
        ({
            let k = cs.and_constraints@.len();
            let ls = lines("(constraint_set\n"@ + ands_text(cs, k) + muls_text(cs, n));
            &&& ls.len() == k + n + 2
            &&& ls[0] == "(constraint_set"@
            &&& ls.last() == Seq::<char>::empty()
            &&& forall|i: int|
                0 <= i < k ==> #[trigger] ls[i + 1] == and_line(cs, cs.and_constraints@[i])
            &&& forall|i: int|
                0 <= i < n ==> #[trigger] ls[k + i + 1] == mul_line(cs, cs.mul_constraints@[i])
        }),
    decreases n,
{
    let k = cs.and_constraints@.len();
    let head = "(constraint_set\n"@ + ands_text(cs, k);
    let text = head + muls_text(cs, n);
    let ls = lines(text);
    if n == 0 {
        lemma_and_lines(cs, k);
        assert(text =~= head);
    } else {
        let m = (n - 1) as nat;
        lemma_mul_lines(cs, m);
        let c = cs.mul_constraints@[m as int];
        lemma_mul_line(cs, c);
        let before = head + muls_text(cs, m);
        lemma_lines_add(before, mul_line(cs, c));
        assert(text =~= before + mul_line(cs, c).push('\n'));
        let old_ls = lines(before);
        assert forall|i: int| 0 <= i < n implies #[trigger] ls[k + i + 1] == mul_line(
            cs,
            cs.mul_constraints@[i],
        ) by {
            if i < m {
                assert(ls[k + i + 1] == old_ls[k + i + 1]);
            }
        }
        assert forall|i: int| 0 <= i < k implies #[trigger] ls[i + 1] == and_line(
            cs,
            cs.and_constraints@[i],
        ) by {
            assert(ls[i + 1] == old_ls[i + 1]);
        }
        assert(ls[0] == old_ls[0]);
    }
}

/// Every constraint has its own line: the text is the head, one line for each AND constraint in
/// order, one line for each MUL constraint in order, and the closing bracket.
pub proof fn lemma_each_constraint_has_its_line(cs: ConstraintSystem)
    ensures
        ({
            let n_and = cs.and_constraints@.len();
            let n_mul = cs.mul_constraints@.len();
            let ls = lines(constraint_set_text(cs));
            &&& ls.len() == n_and + n_mul + 2
            &&& ls[0] == "(constraint_set"@
            &&& forall|i: int|
                0 <= i < n_and ==> #[trigger] ls[i + 1] == and_line(cs, cs.and_constraints@[i])
            &&& forall|i: int|
                0 <= i < n_mul ==> #[trigger] ls[n_and + i + 1] == mul_line(
                    cs,
                    cs.mul_constraints@[i],
                )
            &&& ls.last() == ")"@
        }),
{
    let n_and = cs.and_constraints@.len();
    let n_mul = cs.mul_constraints@.len();
    lemma_mul_lines(cs, n_mul);
    let before = "(constraint_set\n"@ + ands_text(cs, n_and) + muls_text(cs, n_mul);
    reveal_strlit(")");
    lemma_lines_extend(before, ")"@);
    let old_ls = lines(before);
    let ls = lines(constraint_set_text(cs));
    assert(Seq::<char>::empty() + ")"@ =~= ")"@);
    assert(ls == old_ls.drop_last().push(")"@));
    assert forall|i: int| 0 <= i < n_and implies #[trigger] ls[i + 1] == and_line(
        cs,
        cs.and_constraints@[i],
    ) by {
        assert(ls[i + 1] == old_ls[i + 1]);
    }
    assert forall|i: int| 0 <= i < n_mul implies #[trigger] ls[n_and + i + 1] == mul_line(
        cs,
        cs.mul_constraints@[i],
    ) by {
        assert(ls[n_and + i + 1] == old_ls[n_and + i + 1]);
    }
    assert(ls[0] == old_ls[0]);
}

/// Two systems with the same text have the same constraints as they are written: as many of each
/// kind, and each the same as its counterpart.
pub proof fn lemma_export_tells_constraints_apart(x: ConstraintSystem, y: ConstraintSystem)
    requires
        constraint_set_text(x) == constraint_set_text(y),
    ensures
        x.and_constraints@.len() == y.and_constraints@.len(),
        x.mul_constraints@.len() == y.mul_constraints@.len(),
        forall|i: int|
            0 <= i < x.and_constraints@.len() ==> #[trigger] and_line(x, x.and_constraints@[i])
                == and_line(y, y.and_constraints@[i]),
        forall|i: int|
            0 <= i < x.mul_constraints@.len() ==> #[trigger] mul_line(x, x.mul_constraints@[i])
                == mul_line(y, y.mul_constraints@[i]),
{
    lemma_each_constraint_has_its_line(x);
    lemma_each_constraint_has_its_line(y);
    let ls = lines(constraint_set_text(x));
    let (a, b) = (x.and_constraints@.len(), y.and_constraints@.len());
    if a < b {
        lemma_mul_line(x, x.mul_constraints@[0]);
        lemma_and_line(y, y.and_constraints@[a as int]);
        assert(ls[a as int + 0int + 1] == mul_line(x, x.mul_constraints@[0]));
        assert(ls[a as int + 1] == and_line(y, y.and_constraints@[a as int]));
    } else if b < a {
        lemma_mul_line(y, y.mul_constraints@[0]);
        lemma_and_line(x, x.and_constraints@[b as int]);
        assert(ls[b as int + 0int + 1] == mul_line(y, y.mul_constraints@[0]));
        assert(ls[b as int + 1] == and_line(x, x.and_constraints@[b as int]));
    }
    assert forall|i: int| 0 <= i < x.and_constraints@.len() implies #[trigger] and_line(
        x,
        x.and_constraints@[i],
    ) == and_line(y, y.and_constraints@[i]) by {
        assert(ls[i + 1] == and_line(x, x.and_constraints@[i]));
    }
    assert forall|i: int| 0 <= i < x.mul_constraints@.len() implies #[trigger] mul_line(
        x,
        x.mul_constraints@[i],
    ) == mul_line(y, y.mul_constraints@[i]) by {
        assert(ls[a + i + 1] == mul_line(x, x.mul_constraints@[i]));
    }
}

/// The terms of two lists put together are written one list after the other, with a space between.
pub proof fn lemma_terms_join(
    cs: ConstraintSystem,
    a: Seq<ShiftedValueIndex>,
    b: Seq<ShiftedValueIndex>,
)
    requires
        a.len() > 0,
        b.len() > 0,
    ensures
        terms_text(cs, a + b) == terms_text(cs, a) + " "@ + terms_text(cs, b),
    decreases b.len(),
{
    assert((a + b).last() == b.last());
    if b.len() == 1 {
        assert((a + b).drop_last() =~= a);
    } else {
        let c = b.drop_last();
        lemma_terms_join(cs, a, c);
        assert((a + b).drop_last() =~= a + c);
        assert(terms_text(cs, a + b) =~= terms_text(cs, a) + " "@ + terms_text(cs, b));
    }
}

/// The terms of an operand in order: the text is that of its terms before one of them, then that
/// term itself, then that of the terms behind it.
pub proof fn lemma_operand_lists_each_term(
    cs: ConstraintSystem,
    op: Seq<ShiftedValueIndex>,
    i: int,
)
    requires
        0 < i < op.len() - 1,
    ensures
        operand_text(cs, op) == "(xor "@ + terms_text(cs, op.take(i)) + " "@ + term_text(cs, op[i])
            + " "@ + terms_text(cs, op.skip(i + 1)) + ")"@,
{
    let one = seq![op[i]];
    lemma_terms_join(cs, op.take(i), one);
    lemma_terms_join(cs, op.take(i) + one, op.skip(i + 1));
    assert(op.take(i) + one + op.skip(i + 1) =~= op);
    assert(terms_text(cs, one) == term_text(cs, op[i]));
    assert(operand_text(cs, op) =~= "(xor "@ + terms_text(cs, op.take(i)) + " "@ + term_text(
        cs,
        op[i],
    ) + " "@ + terms_text(cs, op.skip(i + 1)) + ")"@);
}

/// What a digit stands for: `0` to `9`, then `a` on.
pub open spec fn digit_value(c: char) -> int {
    if c as int <= '9' as int {
        c as int - '0' as int
    } else {
        c as int - 'a' as int + 10
    }
}

/// The number that a row of digits stands for in a base.
pub open spec fn digits_value(text: Seq<char>, base: int) -> int
    decreases text.len(),
{
    if text.len() == 0 {
        0
    } else {
        base * digits_value(text.drop_last(), base) + digit_value(text.last())
    }
}

/// A number in decimal stands for itself, and has no leading zero but for zero.
pub proof fn lemma_decimal_reads_back(n: nat)
    ensures
        digits_value(decimal(n), 10) == n,
        decimal(n).len() > 0,
        n > 0 ==> decimal(n)[0] != '0',
    decreases n,
{
    let text = decimal(n);
    reveal_with_fuel(digits_value, 2);
    if n < 10 {
        assert(text.drop_last() =~= Seq::empty());
    } else {
        lemma_decimal_reads_back(n / 10);
        assert(text.drop_last() =~= decimal(n / 10));
        assert(text[0] == decimal(n / 10)[0]);
    }
}

/// A number that fits is written in `k` hexadecimal digits that stand for it.
pub proof fn lemma_hex_reads_back(n: nat, k: nat)
    requires
        n < pow(16, k),
    ensures
        hex(n, k).len() == k,
        digits_value(hex(n, k), 16) == n,
    decreases k,
{
    reveal(pow);
    if k > 0 {
        let text = hex(n, k);
        let p = pow(16, (k - 1) as nat);
        assert(pow(16, k) == 16 * p);
        assert(n / 16 < p) by (nonlinear_arith)
            requires
                n < 16 * p,
        ;
        lemma_hex_reads_back(n / 16, (k - 1) as nat);
        assert(text.drop_last() =~= hex(n / 16, (k - 1) as nat));
    }
}

proof fn lemma_word_fits(x: u64)
    ensures
        x < pow(16, 16),
{
    reveal(pow);
    reveal_with_fuel(pow, 17);
}

proof fn lemma_named_apart(prefix: Seq<char>, a: nat, b: nat)
    requires
        prefix + decimal(a) == prefix + decimal(b),
    ensures
        a == b,
{
    let k = prefix.len() as int;
    assert((prefix + decimal(a)).skip(k) =~= decimal(a));
    assert((prefix + decimal(b)).skip(k) =~= decimal(b));
    lemma_decimal_reads_back(a);
    lemma_decimal_reads_back(b);
}

/// Two values of a system have the same name only where they are the same value, or two constants
/// that are equal.
pub proof fn lemma_values_named_apart(cs: ConstraintSystem, i: int, j: int)
    requires
        0 <= i,
        0 <= j,
        value_text(cs, i) == value_text(cs, j),
    ensures
        i == j || (i < cs.constants@.len() && j < cs.constants@.len() && cs.constants@[i]
            == cs.constants@[j]),
{
    reveal_strlit("0x");
    reveal_strlit("$io");
    reveal_strlit("$w");
    reveal_strlit("$internal");
    let n_const = cs.constants@.len();
    let n_inout = cs.value_vec_layout.n_inout;
    let start = cs.value_vec_layout.offset_witness;
    let (ti, tj) = (value_text(cs, i), value_text(cs, j));
    assert(ti[0] == tj[0] && ti[1] == tj[1] && ti[2] == tj[2]);
    if i < n_const {
        assert(ti[0] == '0');
        assert(j < n_const);
        let (x, y) = (cs.constants@[i].0, cs.constants@[j].0);
        lemma_word_fits(x);
        lemma_word_fits(y);
        lemma_hex_reads_back(x as nat, 16);
        lemma_hex_reads_back(y as nat, 16);
        assert(ti.skip(2) =~= hex(x as nat, 16));
        assert(tj.skip(2) =~= hex(y as nat, 16));
    } else if i < n_const + n_inout {
        assert(ti[1] == 'i' && ti[2] == 'o');
        assert(n_const <= j < n_const + n_inout);
        lemma_named_apart("$io"@, (i - n_const) as nat, (j - n_const) as nat);
    } else if i >= start {
        assert(ti[1] == 'w');
        assert(j >= start);
        lemma_named_apart("$w"@, (i - start) as nat, (j - start) as nat);
    } else {
        assert(ti[1] == 'i' && ti[2] == 'n');
        assert(j < start);
        lemma_named_apart("$internal"@, i as nat, j as nat);
    }
}

/// How a value is named: a constant by the value of its word, a public input by its place behind the
/// constants, a private value by its place in the private part.
pub proof fn lemma_value_names(cs: ConstraintSystem, idx: int)
    requires
        0 <= idx,
    ensures
        ({
            let n_const = cs.constants@.len();
            let n_public = n_const + cs.value_vec_layout.n_inout;
            let start = cs.value_vec_layout.offset_witness;
            let text = value_text(cs, idx);
            &&& idx < n_const ==> text.take(2) == "0x"@ && text.len() == 18 && digits_value(
                text.skip(2),
                16,
            ) == cs.constants@[idx].0
            &&& n_const <= idx < n_public ==> text.take(3) == "$io"@ && n_const + digits_value(
                text.skip(3),
                10,
            ) == idx
            &&& n_public <= idx && start <= idx ==> text.take(2) == "$w"@ && start + digits_value(
                text.skip(2),
                10,
            ) == idx
            &&& n_public <= idx < start ==> text.take(9) == "$internal"@ && digits_value(
                text.skip(9),
                10,
            ) == idx
        }),
{
    reveal_strlit("0x");
    reveal_strlit("$io");
    reveal_strlit("$w");
    reveal_strlit("$internal");
    let n_const = cs.constants@.len();
    let n_public = n_const + cs.value_vec_layout.n_inout;
    let start = cs.value_vec_layout.offset_witness;
    let text = value_text(cs, idx);
    if idx < n_const {
        let x = cs.constants@[idx].0;
        lemma_word_fits(x);
        lemma_hex_reads_back(x as nat, 16);
        assert(text.take(2) =~= "0x"@);
        assert(text.skip(2) =~= hex(x as nat, 16));
    } else if idx < n_public {
        lemma_decimal_reads_back((idx - n_const) as nat);
        assert(text.take(3) =~= "$io"@);
        assert(text.skip(3) =~= decimal((idx - n_const) as nat));
    } else if idx >= start {
        lemma_decimal_reads_back((idx - start) as nat);
        assert(text.take(2) =~= "$w"@);
        assert(text.skip(2) =~= decimal((idx - start) as nat));
    } else {
        lemma_decimal_reads_back(idx as nat);
        assert(text.take(9) =~= "$internal"@);
        assert(text.skip(9) =~= decimal(idx as nat));
    }
}

/// Different shifts have different names.
pub proof fn lemma_shifts_named_apart(v: ShiftVariant, w: ShiftVariant)
    requires
        op_text(v) == op_text(w),
    ensures
        v == w,
{
    reveal_strlit("sll");
    reveal_strlit("slr");
    reveal_strlit("sar");
    reveal_strlit("ror");
    reveal_strlit("sll32");
    reveal_strlit("slr32");
    reveal_strlit("sar32");
    reveal_strlit("ror32");
    let (a, b) = (op_text(v), op_text(w));
    assert(a.len() == b.len());
    assert(a[0] == b[0] && a[1] == b[1] && a[2] == b[2]);
}

proof fn lemma_lines_join(a: Seq<char>, b: Seq<char>)
    ensures
        lines(a + b) == lines(a).drop_last().push(lines(a).last() + lines(b)[0]) + lines(b).skip(1),
        lines(b).len() > 0,
    decreases b.len(),
{
    lemma_lines_nonempty(a);
    lemma_lines_nonempty(b);
    let la = lines(a);
    if b.len() == 0 {
        assert(a + b =~= a);
        assert(lines(b)[0] == Seq::<char>::empty());
        assert(la.last() + lines(b)[0] =~= la.last());
        assert(lines(b).skip(1) =~= Seq::empty());
        assert(lines(a + b) =~= la.drop_last().push(la.last() + lines(b)[0]) + lines(b).skip(1));
    } else {
        let c = b.drop_last();
        lemma_lines_join(a, c);
        assert((a + b).drop_last() =~= a + c);
        assert((a + b).last() == b.last());
        let lc = lines(c);
        let joined = la.drop_last().push(la.last() + lc[0]) + lc.skip(1);
        let want = la.drop_last().push(la.last() + lines(b)[0]) + lines(b).skip(1);
        if b.last() == '\n' {
            assert(lines(b) == lc.push(Seq::empty()));
            assert(joined.push(Seq::empty()) =~= want);
        } else {
            let longer = lc.last().push(b.last());
            assert(lines(b) == lc.drop_last().push(longer));
            if lc.len() == 1 {
                assert((la.last() + lc[0]).push(b.last()) =~= la.last() + longer);
            } else {
                assert(joined.last() == lc.last());
            }
            assert(joined.drop_last().push(joined.last().push(b.last())) =~= want);
        }
    }
}

/// The claim of an equivalence holds both systems, the first before the second: its lines are the
/// head, the lines of the first system, those of the second, and the closing bracket, where the first
/// line of each system is indented.
pub proof fn lemma_equivalence_holds_both(lhs: ConstraintSystem, rhs: ConstraintSystem)
    ensures
        ({
            let (l, r) = (lines(constraint_set_text(lhs)), lines(constraint_set_text(rhs)));
            let ls = lines(assert_eqv_text(lhs, rhs));
            &&& ls.len() == l.len() + r.len() + 2
            &&& ls[0] == "(assert_eqv"@
            &&& ls[1] == "  "@ + l[0]
            &&& forall|i: int| 0 < i < l.len() ==> #[trigger] ls[1 + i] == l[i]
            &&& ls[1 + l.len() as int] == "  "@ + r[0]
            &&& forall|i: int| 0 < i < r.len() ==> #[trigger] ls[1 + l.len() + i] == r[i]
            &&& ls.last() == ")"@
        }),
{
    let (tl, tr) = (constraint_set_text(lhs), constraint_set_text(rhs));
    let (l, r) = (lines(tl), lines(tr));
    let head = "(assert_eqv\n  "@;
    lemma_equivalence_marks();
    lemma_lines_join(head, tl);
    let a = head + tl;
    let la = lines(a);
    assert(la =~= seq!["(assert_eqv"@].push("  "@ + l[0]) + l.skip(1));
    lemma_lines_join(a, "\n  "@);
    let b = a + "\n  "@;
    let lb = lines(b);
    assert(lines("\n  "@).skip(1) =~= seq!["  "@]);
    assert(la.last() + Seq::<char>::empty() =~= la.last());
    assert(la.drop_last().push(la.last()) =~= la);
    assert(lb =~= la.push("  "@));
    lemma_lines_join(b, tr);
    let c = b + tr;
    let lc = lines(c);
    assert(lc =~= la.push("  "@ + r[0]) + r.skip(1));
    lemma_lines_join(c, "\n)"@);
    assert(lines("\n)"@).skip(1) =~= seq![")"@]);
    assert(lc.last() + Seq::<char>::empty() =~= lc.last());
    assert(lc.drop_last().push(lc.last()) =~= lc);
    let ls = lines(assert_eqv_text(lhs, rhs));
    assert(ls =~= lc.push(")"@));
    assert forall|i: int| 0 < i < l.len() implies #[trigger] ls[1 + i] == l[i] by {
        assert(l.skip(1)[i - 1] == l[i]);
    }
    assert forall|i: int| 0 < i < r.len() implies #[trigger] ls[1 + l.len() + i] == r[i] by {
        assert(r.skip(1)[i - 1] == r[i]);
    }
}

proof fn lemma_equivalence_marks()
    ensures
        lines("(assert_eqv\n  "@) == seq!["(assert_eqv"@, "  "@],
        lines("\n  "@) == seq![Seq::<char>::empty(), "  "@],
        lines("\n)"@) == seq![Seq::<char>::empty(), ")"@],
{
    reveal_strlit("(assert_eqv\n  ");
    reveal_strlit("(assert_eqv");
    reveal_strlit("  ");
    reveal_strlit("\n  ");
    reveal_strlit("\n)");
    reveal_strlit(")");
    let none = Seq::<char>::empty();
    assert(lines(none) == seq![none]);
    let nl = none.push('\n');
    lemma_lines_add(none, none);
    assert(none + nl =~= nl);
    assert(seq![none].drop_last().push(none).push(none) =~= seq![none, none]);
    lemma_lines_extend(nl, "  "@);
    assert("\n  "@ =~= nl + "  "@);
    assert(none + "  "@ =~= "  "@);
    assert(seq![none, none].drop_last().push("  "@) =~= seq![none, "  "@]);
    lemma_lines_extend(nl, ")"@);
    assert("\n)"@ =~= nl + ")"@);
    assert(none + ")"@ =~= ")"@);
    assert(seq![none, none].drop_last().push(")"@) =~= seq![none, ")"@]);
    let name = "(assert_eqv"@;
    let first = name.push('\n');
    lemma_lines_add(none, name);
    assert(none + first =~= first);
    assert(seq![none].drop_last().push(name).push(none) =~= seq![name, none]);
    lemma_lines_extend(first, "  "@);
    assert("(assert_eqv\n  "@ =~= first + "  "@);
    assert(seq![name, none].drop_last().push("  "@) =~= seq![name, "  "@]);
}

} // verus!
