//! The circuit builder, its semantics and its evaluator.
use super::word::{
    add32, add64, byte_of, is_true, mask, rotate_left, rotate_right32, rotl64, rotr32, to_mask,
    wrapping_add32,
};
use vstd::prelude::*;

verus! {

/// A wire, by the position at which it was made.
#[derive(Clone, Copy, PartialEq, Eq, Structural, Debug)]
pub struct Wire {
    /// The position.
    pub index: usize,
}

/// Gates with one input.
#[derive(Clone, Copy, PartialEq, Eq, Structural, Debug)]
pub enum UnaryOp {
    /// Bitwise complement.
    Not,
    /// Logical shift to the left.
    Shl(u32),
    /// Logical shift to the right.
    Shr(u32),
    /// Rotation to the left.
    Rotl(u32),
    /// Rotation to the right of the low 32 bits; the high ones are zero.
    Rotr32(u32),
    /// One byte of the word.
    Byte(u32),
}

/// Gates with two inputs.
#[derive(Clone, Copy, PartialEq, Eq, Structural, Debug)]
pub enum BinaryOp {
    /// Bitwise and.
    And,
    /// Bitwise or.
    Or,
    /// Bitwise exclusive or.
    Xor,
    /// Sum modulo `2^64`.
    Add,
    /// Whether the sum exceeds 64 bits.
    Carry,
    /// Sum modulo `2^32` of the low halves; the high half is zero.
    Add32,
    /// Unsigned less-than.
    Ult,
    /// Unsigned less-or-equal.
    Ule,
    /// Equality.
    Eq,
    /// Inequality.
    Ne,
}

/// Gates with three inputs.
#[derive(Clone, Copy, PartialEq, Eq, Structural, Debug)]
pub enum TernaryOp {
    /// The first input minus the second minus the borrow in the third.
    Sub,
    /// Whether that subtraction borrows.
    Borrow,
    /// The second input where the first is true, else the third.
    Select,
}

/// What drives a wire.
#[derive(Clone, Copy, PartialEq, Eq, Structural, Debug)]
pub enum Gate {
    /// A constant.
    Constant(u64),
    /// A private input.
    Witness,
    /// A public input.
    Inout,
    /// A gate with one input.
    Unary(UnaryOp, Wire),
    /// A gate with two inputs.
    Binary(BinaryOp, Wire, Wire),
    /// A gate with three inputs.
    Ternary(TernaryOp, Wire, Wire, Wire),
}

/// A condition on wires that a witness has to meet.
#[derive(Clone, Copy, PartialEq, Eq, Structural, Debug)]
pub enum Assertion {
    /// The wire is true.
    True(Wire),
    /// The two wires carry the same word.
    Equal(Wire, Wire),
}

/// The word that a gate with one input computes.
pub open spec fn unary_value(op: UnaryOp, x: u64) -> u64 {
    match op {
        UnaryOp::Not => !x,
        UnaryOp::Shl(n) => x << (n as u64),
        UnaryOp::Shr(n) => x >> (n as u64),
        UnaryOp::Rotl(n) => rotl64(x, n),
        UnaryOp::Rotr32(n) => rotr32(x as u32, n) as u64,
        UnaryOp::Byte(j) => byte_of(x, j as int),
    }
}

/// The word that a gate with two inputs computes.
pub open spec fn binary_value(op: BinaryOp, x: u64, y: u64) -> u64 {
    match op {
        BinaryOp::And => x & y,
        BinaryOp::Or => x | y,
        BinaryOp::Xor => x ^ y,
        BinaryOp::Add => add64(x, y),
        BinaryOp::Carry => mask(x + y > u64::MAX),
        BinaryOp::Add32 => add32(x as u32, y as u32) as u64,
        BinaryOp::Ult => mask(x < y),
        BinaryOp::Ule => mask(x <= y),
        BinaryOp::Eq => mask(x == y),
        BinaryOp::Ne => mask(x != y),
    }
}

/// The borrow that a word hands to a subtraction.
pub open spec fn borrow_in(b: u64) -> int {
    if is_true(b) {
        1
    } else {
        0
    }
}

/// The word that a gate with three inputs computes.
pub open spec fn ternary_value(op: TernaryOp, x: u64, y: u64, z: u64) -> u64 {
    match op {
        TernaryOp::Sub => ((x - y - borrow_in(z)) % 0x1_0000_0000_0000_0000) as u64,
        TernaryOp::Borrow => mask(x < y + borrow_in(z)),
        TernaryOp::Select => if is_true(x) {
            y
        } else {
            z
        },
    }
}

/// Whether an operation at position `i` reads only earlier wires and its amounts are in range.
pub open spec fn gate_ok(g: Gate, i: int) -> bool {
    match g {
        Gate::Constant(_) | Gate::Witness | Gate::Inout => true,
        Gate::Unary(op, x) => x.index < i && match op {
            UnaryOp::Not => true,
            UnaryOp::Shl(n) | UnaryOp::Shr(n) | UnaryOp::Rotl(n) => n < 64,
            UnaryOp::Rotr32(n) => 0 < n < 32,
            UnaryOp::Byte(j) => j < 8,
        },
        Gate::Binary(_, x, y) => x.index < i && y.index < i,
        Gate::Ternary(_, x, y, z) => x.index < i && y.index < i && z.index < i,
    }
}

/// The word on wire `i` where the inputs are taken from `w`, which is indexed by wire.
pub open spec fn gate_value(gates: Seq<Gate>, w: Seq<u64>, i: int) -> u64
    decreases i,
{
    match gates[i] {
        Gate::Constant(c) => c,
        Gate::Witness | Gate::Inout => w[i],
        Gate::Unary(op, x) => if 0 <= x.index < i {
            unary_value(op, gate_value(gates, w, x.index as int))
        } else {
            0
        },
        Gate::Binary(op, x, y) => if 0 <= x.index < i && 0 <= y.index < i {
            binary_value(
                op,
                gate_value(gates, w, x.index as int),
                gate_value(gates, w, y.index as int),
            )
        } else {
            0
        },
        Gate::Ternary(op, x, y, z) => if 0 <= x.index < i && 0 <= y.index < i && 0 <= z.index < i {
            ternary_value(
                op,
                gate_value(gates, w, x.index as int),
                gate_value(gates, w, y.index as int),
                gate_value(gates, w, z.index as int),
            )
        } else {
            0
        },
    }
}

proof fn lemma_gate_value_prefix(g1: Seq<Gate>, g2: Seq<Gate>, w: Seq<u64>, i: int)
    requires
        0 <= i < g1.len() <= g2.len(),
        g1 == g2.subrange(0, g1.len() as int),
    ensures
        gate_value(g1, w, i) == gate_value(g2, w, i),
    decreases i,
{
    assert(g1[i] == g2[i]);
    match g1[i] {
        Gate::Unary(_, x) => {
            if x.index < i {
                lemma_gate_value_prefix(g1, g2, w, x.index as int);
            }
        },
        Gate::Binary(_, x, y) => {
            if x.index < i && y.index < i {
                lemma_gate_value_prefix(g1, g2, w, x.index as int);
                lemma_gate_value_prefix(g1, g2, w, y.index as int);
            }
        },
        Gate::Ternary(_, x, y, z) => {
            if x.index < i && y.index < i && z.index < i {
                lemma_gate_value_prefix(g1, g2, w, x.index as int);
                lemma_gate_value_prefix(g1, g2, w, y.index as int);
                lemma_gate_value_prefix(g1, g2, w, z.index as int);
            }
        },
        _ => {},
    }
}

/// Whether an assertion holds on the wire values.
pub open spec fn assertion_holds(gates: Seq<Gate>, w: Seq<u64>, a: Assertion) -> bool {
    match a {
        Assertion::True(x) => is_true(gate_value(gates, w, x.index as int)),
        Assertion::Equal(x, y) => gate_value(gates, w, x.index as int) == gate_value(
            gates,
            w,
            y.index as int,
        ),
    }
}

/// Whether an assertion reads only wires below `n`.
pub open spec fn assertion_ok(a: Assertion, n: nat) -> bool {
    match a {
        Assertion::True(x) => x.index < n,
        Assertion::Equal(x, y) => x.index < n && y.index < n,
    }
}

/// Added wires leave the words on earlier wires as they are.
pub proof fn lemma_vals_kept(post: CircuitBuilder, pre: CircuitBuilder, xs: Seq<Wire>)
    requires
        post.extends(pre),
        pre.has_all(xs),
    ensures
        post.has_all(xs),
        forall|w: Seq<u64>| #[trigger] post.vals(w, xs) == pre.vals(w, xs),
{
    assert forall|i: int| 0 <= i < xs.len() implies post.has(#[trigger] xs[i]) by {
        assert(pre.has(xs[i]));
    }
    assert forall|w: Seq<u64>| #[trigger] post.vals(w, xs) == pre.vals(w, xs) by {
        assert forall|i: int| 0 <= i < xs.len() implies post.val(w, xs[i]) == #[trigger] pre.val(
            w,
            xs[i],
        ) by {
            assert(pre.has(xs[i]));
        }
        assert(post.vals(w, xs) =~= pre.vals(w, xs));
    }
}

/// Records gates and assertions. Wires are numbered in the order in which they are made.
pub struct CircuitBuilder {
    /// The gates, by wire.
    pub gates: Vec<Gate>,
    /// The assertions, in the order in which they were made.
    pub assertions: Vec<Assertion>,
}

impl CircuitBuilder {
    /// Every gate and assertion reads wires that exist, gates only earlier ones.
    pub closed spec fn wf(self) -> bool {
        &&& forall|i: int| 0 <= i < self.gates@.len() ==> gate_ok(#[trigger] self.gates@[i], i)
        &&& forall|i: int|
            0 <= i < self.assertions@.len() ==> assertion_ok(
                #[trigger] self.assertions@[i],
                self.gates@.len(),
            )
    }

    /// The number of wires.
    pub closed spec fn n(self) -> nat {
        self.gates@.len()
    }

    /// Whether the wire exists.
    pub open spec fn has(self, x: Wire) -> bool {
        x.index < self.n()
    }

    /// Whether every wire of a list exists.
    pub open spec fn has_all(self, xs: Seq<Wire>) -> bool {
        forall|i: int| 0 <= i < xs.len() ==> self.has(#[trigger] xs[i])
    }

    /// The word on wire `x` where the inputs are taken from `w`, which is indexed by wire.
    pub closed spec fn val(self, w: Seq<u64>, x: Wire) -> u64 {
        gate_value(self.gates@, w, x.index as int)
    }

    /// The words on a list of wires.
    pub open spec fn vals(self, w: Seq<u64>, xs: Seq<Wire>) -> Seq<u64> {
        Seq::new(xs.len(), |i: int| self.val(w, xs[i]))
    }

    /// Whether every assertion holds.
    pub closed spec fn accepts(self, w: Seq<u64>) -> bool {
        forall|i: int|
            0 <= i < self.assertions@.len() ==> assertion_holds(
                self.gates@,
                w,
                #[trigger] self.assertions@[i],
            )
    }

    /// Whether `self` is `pre` with wires added: what was there carries the same words.
    pub open spec fn extends(self, pre: CircuitBuilder) -> bool {
        &&& self.wf()
        &&& pre.n() <= self.n()
        &&& forall|w: Seq<u64>, x: Wire|
            pre.has(x) ==> #[trigger] self.val(w, x) == pre.val(w, x)
    }

    /// Whether the wires are none of this builder's, and no two of them are the same.
    pub open spec fn lacks_all(self, xs: Seq<Wire>) -> bool {
        &&& forall|i: int| 0 <= i < xs.len() ==> (#[trigger] xs[i]).index >= self.n()
        &&& forall|i: int, j: int|
            0 <= i < j < xs.len() ==> (#[trigger] xs[i]).index != (#[trigger] xs[j]).index
    }

    /// Whether every wire carries what the assignment gives for its index.
    pub open spec fn reads_all(self, xs: Seq<Wire>) -> bool {
        forall|w: Seq<u64>, i: int|
            0 <= i < xs.len() ==> #[trigger] self.val(w, xs[i]) == w[xs[i].index as int]
    }

    /// Whether the wires are inputs of their own, added since `pre`: new, pairwise different, and
    /// each free to carry what the assignment gives for it.
    pub open spec fn adds_inputs(self, pre: CircuitBuilder, xs: Seq<Wire>) -> bool {
        &&& pre.lacks_all(xs)
        &&& self.reads_all(xs)
    }

    /// Whether `self` is `pre` with wires added and no assertion.
    pub open spec fn computes_on(self, pre: CircuitBuilder) -> bool {
        &&& self.extends(pre)
        &&& forall|w: Seq<u64>| #[trigger] self.accepts(w) == pre.accepts(w)
    }

    /// Returns a builder without wires.
    pub fn new() -> (r: Self)
        ensures
            r.wf(),
            r.n() == 0,
            forall|w: Seq<u64>| #[trigger] r.accepts(w),
    {
        CircuitBuilder { gates: Vec::new(), assertions: Vec::new() }
    }

    proof fn lemma_push_gate(pre: Self, post: Self, g: Gate)
        requires
            pre.wf(),
            gate_ok(g, pre.gates@.len() as int),
            post.gates@ == pre.gates@.push(g),
            post.assertions@ == pre.assertions@,
        ensures
            post.computes_on(pre),
            post.n() == pre.n() + 1,
    {
        assert forall|i: int| 0 <= i < post.gates@.len() implies gate_ok(
            #[trigger] post.gates@[i],
            i,
        ) by {
            if i < pre.gates@.len() {
                assert(post.gates@[i] == pre.gates@[i]);
            }
        }
        assert(pre.gates@ =~= post.gates@.subrange(0, pre.gates@.len() as int));
        assert forall|w: Seq<u64>, x: Wire| pre.has(x) implies #[trigger] post.val(w, x) == pre.val(
            w,
            x,
        ) by {
            lemma_gate_value_prefix(pre.gates@, post.gates@, w, x.index as int);
        }
        assert forall|w: Seq<u64>| #[trigger] post.accepts(w) == pre.accepts(w) by {
            Self::lemma_same_assertions(pre, post, w);
        }
    }

    proof fn lemma_same_assertions(pre: Self, post: Self, w: Seq<u64>)
        requires
            pre.wf(),
            pre.gates@.len() <= post.gates@.len(),
            pre.gates@ == post.gates@.subrange(0, pre.gates@.len() as int),
            post.assertions@ == pre.assertions@,
        ensures
            post.accepts(w) == pre.accepts(w),
    {
        assert forall|i: int| 0 <= i < pre.assertions@.len() implies assertion_holds(
            pre.gates@,
            w,
            #[trigger] pre.assertions@[i],
        ) == assertion_holds(post.gates@, w, post.assertions@[i]) by {
            assert(assertion_ok(pre.assertions@[i], pre.gates@.len()));
            match pre.assertions@[i] {
                Assertion::True(x) => {
                    lemma_gate_value_prefix(pre.gates@, post.gates@, w, x.index as int);
                },
                Assertion::Equal(x, y) => {
                    lemma_gate_value_prefix(pre.gates@, post.gates@, w, x.index as int);
                    lemma_gate_value_prefix(pre.gates@, post.gates@, w, y.index as int);
                },
            }
        }
        if pre.accepts(w) {
            assert(post.accepts(w));
        }
        if post.accepts(w) {
            assert forall|i: int| 0 <= i < pre.assertions@.len() implies assertion_holds(
                pre.gates@,
                w,
                #[trigger] pre.assertions@[i],
            ) by {
                assert(assertion_holds(post.gates@, w, post.assertions@[i]));
            }
        }
    }

    fn push_gate(&mut self, g: Gate) -> (r: Wire)
        requires
            old(self).wf(),
            gate_ok(g, old(self).gates@.len() as int),
        ensures
            final(self).computes_on(*old(self)),
            final(self).n() == old(self).n() + 1,
            r.index == old(self).n(),
            final(self).gates@ == old(self).gates@.push(g),
    {
        let index: usize = self.gates.len();
        self.gates.push(g);
        proof {
            Self::lemma_push_gate(*old(self), *self, g);
        }
        Wire { index }
    }

    /// Adds a constant.
    pub fn add_constant_64(&mut self, c: u64) -> (r: Wire)
        requires
            old(self).wf(),
        ensures
            final(self).computes_on(*old(self)),
            final(self).has(r),
            forall|w: Seq<u64>| #[trigger] final(self).val(w, r) == c,
    {
        self.push_gate(Gate::Constant(c))
    }

    /// Adds a private input.
    pub fn add_witness(&mut self) -> (r: Wire)
        requires
            old(self).wf(),
        ensures
            final(self).computes_on(*old(self)),
            final(self).has(r),
            r.index == old(self).n(),
            final(self).n() == old(self).n() + 1,
            forall|w: Seq<u64>| #[trigger] final(self).val(w, r) == w[r.index as int],
    {
        self.push_gate(Gate::Witness)
    }

    /// Adds a public input.
    pub fn add_inout(&mut self) -> (r: Wire)
        requires
            old(self).wf(),
        ensures
            final(self).computes_on(*old(self)),
            final(self).has(r),
            r.index == old(self).n(),
            final(self).n() == old(self).n() + 1,
            forall|w: Seq<u64>| #[trigger] final(self).val(w, r) == w[r.index as int],
    {
        self.push_gate(Gate::Inout)
    }

    fn unary(&mut self, op: UnaryOp, x: Wire) -> (r: Wire)
        requires
            old(self).wf(),
            old(self).has(x),
            gate_ok(Gate::Unary(op, x), old(self).n() as int),
        ensures
            final(self).computes_on(*old(self)),
            final(self).has(r),
            forall|w: Seq<u64>|
                #[trigger] final(self).val(w, r) == unary_value(op, old(self).val(w, x)),
    {
        let r = self.push_gate(Gate::Unary(op, x));
        proof {
            assert forall|w: Seq<u64>| #[trigger] self.val(w, r) == unary_value(
                op,
                old(self).val(w, x),
            ) by {
                assert(self.val(w, x) == old(self).val(w, x));
            }
        }
        r
    }

    fn binary(&mut self, op: BinaryOp, x: Wire, y: Wire) -> (r: Wire)
        requires
            old(self).wf(),
            old(self).has(x),
            old(self).has(y),
        ensures
            final(self).computes_on(*old(self)),
            final(self).has(r),
            forall|w: Seq<u64>|
                #[trigger] final(self).val(w, r) == binary_value(
                    op,
                    old(self).val(w, x),
                    old(self).val(w, y),
                ),
    {
        let r = self.push_gate(Gate::Binary(op, x, y));
        proof {
            assert forall|w: Seq<u64>| #[trigger] self.val(w, r) == binary_value(
                op,
                old(self).val(w, x),
                old(self).val(w, y),
            ) by {
                assert(self.val(w, x) == old(self).val(w, x));
                assert(self.val(w, y) == old(self).val(w, y));
            }
        }
        r
    }

    fn ternary(&mut self, op: TernaryOp, x: Wire, y: Wire, z: Wire) -> (r: Wire)
        requires
            old(self).wf(),
            old(self).has(x),
            old(self).has(y),
            old(self).has(z),
        ensures
            final(self).computes_on(*old(self)),
            final(self).has(r),
            forall|w: Seq<u64>|
                #[trigger] final(self).val(w, r) == ternary_value(
                    op,
                    old(self).val(w, x),
                    old(self).val(w, y),
                    old(self).val(w, z),
                ),
    {
        let r = self.push_gate(Gate::Ternary(op, x, y, z));
        proof {
            assert forall|w: Seq<u64>| #[trigger] self.val(w, r) == ternary_value(
                op,
                old(self).val(w, x),
                old(self).val(w, y),
                old(self).val(w, z),
            ) by {
                assert(self.val(w, x) == old(self).val(w, x));
                assert(self.val(w, y) == old(self).val(w, y));
                assert(self.val(w, z) == old(self).val(w, z));
            }
        }
        r
    }

    /// Bitwise complement.
    pub fn bnot(&mut self, x: Wire) -> (r: Wire)
        requires
            old(self).wf(),
            old(self).has(x),
        ensures
            final(self).computes_on(*old(self)),
            final(self).has(r),
            forall|w: Seq<u64>| #[trigger] final(self).val(w, r) == !old(self).val(w, x),
    {
        self.unary(UnaryOp::Not, x)
    }

    /// Logical shift to the left.
    pub fn shl(&mut self, x: Wire, n: u32) -> (r: Wire)
        requires
            old(self).wf(),
            old(self).has(x),
            n < 64,
        ensures
            final(self).computes_on(*old(self)),
            final(self).has(r),
            forall|w: Seq<u64>|
                #[trigger] final(self).val(w, r) == old(self).val(w, x) << (n as u64),
    {
        self.unary(UnaryOp::Shl(n), x)
    }

    /// Logical shift to the right.
    pub fn shr(&mut self, x: Wire, n: u32) -> (r: Wire)
        requires
            old(self).wf(),
            old(self).has(x),
            n < 64,
        ensures
            final(self).computes_on(*old(self)),
            final(self).has(r),
            forall|w: Seq<u64>|
                #[trigger] final(self).val(w, r) == old(self).val(w, x) >> (n as u64),
    {
        self.unary(UnaryOp::Shr(n), x)
    }

    /// Rotation to the left.
    pub fn rotl(&mut self, x: Wire, n: u32) -> (r: Wire)
        requires
            old(self).wf(),
            old(self).has(x),
            n < 64,
        ensures
            final(self).computes_on(*old(self)),
            final(self).has(r),
            forall|w: Seq<u64>|
                #[trigger] final(self).val(w, r) == rotl64(old(self).val(w, x), n),
    {
        self.unary(UnaryOp::Rotl(n), x)
    }

    /// Rotation to the right of the low 32 bits.
    pub fn rotr_32(&mut self, x: Wire, n: u32) -> (r: Wire)
        requires
            old(self).wf(),
            old(self).has(x),
            0 < n < 32,
        ensures
            final(self).computes_on(*old(self)),
            final(self).has(r),
            forall|w: Seq<u64>|
                #[trigger] final(self).val(w, r) == rotr32(old(self).val(w, x) as u32, n) as u64,
    {
        self.unary(UnaryOp::Rotr32(n), x)
    }

    /// Byte `j` of a word, the least significant first.
    pub fn extract_byte(&mut self, x: Wire, j: u32) -> (r: Wire)
        requires
            old(self).wf(),
            old(self).has(x),
            j < 8,
        ensures
            final(self).computes_on(*old(self)),
            final(self).has(r),
            forall|w: Seq<u64>|
                #[trigger] final(self).val(w, r) == byte_of(old(self).val(w, x), j as int),
    {
        self.unary(UnaryOp::Byte(j), x)
    }

    /// Bitwise and.
    pub fn band(&mut self, x: Wire, y: Wire) -> (r: Wire)
        requires
            old(self).wf(),
            old(self).has(x),
            old(self).has(y),
        ensures
            final(self).computes_on(*old(self)),
            final(self).has(r),
            forall|w: Seq<u64>|
                #[trigger] final(self).val(w, r) == old(self).val(w, x) & old(self).val(w, y),
    {
        self.binary(BinaryOp::And, x, y)
    }

    /// Bitwise or.
    pub fn bor(&mut self, x: Wire, y: Wire) -> (r: Wire)
        requires
            old(self).wf(),
            old(self).has(x),
            old(self).has(y),
        ensures
            final(self).computes_on(*old(self)),
            final(self).has(r),
            forall|w: Seq<u64>|
                #[trigger] final(self).val(w, r) == old(self).val(w, x) | old(self).val(w, y),
    {
        self.binary(BinaryOp::Or, x, y)
    }

    /// Bitwise exclusive or.
    pub fn bxor(&mut self, x: Wire, y: Wire) -> (r: Wire)
        requires
            old(self).wf(),
            old(self).has(x),
            old(self).has(y),
        ensures
            final(self).computes_on(*old(self)),
            final(self).has(r),
            forall|w: Seq<u64>|
                #[trigger] final(self).val(w, r) == old(self).val(w, x) ^ old(self).val(w, y),
    {
        self.binary(BinaryOp::Xor, x, y)
    }

    /// Sum and carry.
    pub fn iadd(&mut self, x: Wire, y: Wire) -> (r: (Wire, Wire))
        requires
            old(self).wf(),
            old(self).has(x),
            old(self).has(y),
        ensures
            final(self).computes_on(*old(self)),
            final(self).has(r.0),
            final(self).has(r.1),
            forall|w: Seq<u64>|
                #[trigger] final(self).val(w, r.0) == add64(old(self).val(w, x), old(self).val(w, y)),
            forall|w: Seq<u64>|
                #[trigger] final(self).val(w, r.1) == mask(
                    old(self).val(w, x) + old(self).val(w, y) > u64::MAX,
                ),
    {
        let sum = self.binary(BinaryOp::Add, x, y);
        let carry = self.binary(BinaryOp::Carry, x, y);
        (sum, carry)
    }

    /// Sum modulo `2^32` of the low halves.
    pub fn iadd_32(&mut self, x: Wire, y: Wire) -> (r: Wire)
        requires
            old(self).wf(),
            old(self).has(x),
            old(self).has(y),
        ensures
            final(self).computes_on(*old(self)),
            final(self).has(r),
            forall|w: Seq<u64>|
                #[trigger] final(self).val(w, r) == add32(
                    old(self).val(w, x) as u32,
                    old(self).val(w, y) as u32,
                ) as u64,
    {
        self.binary(BinaryOp::Add32, x, y)
    }

    /// Difference and borrow, with a borrow coming in.
    pub fn isub_bin_bout(&mut self, x: Wire, y: Wire, bin: Wire) -> (r: (Wire, Wire))
        requires
            old(self).wf(),
            old(self).has(x),
            old(self).has(y),
            old(self).has(bin),
        ensures
            final(self).computes_on(*old(self)),
            final(self).has(r.0),
            final(self).has(r.1),
            forall|w: Seq<u64>|
                #[trigger] final(self).val(w, r.0) == ternary_value(
                    TernaryOp::Sub,
                    old(self).val(w, x),
                    old(self).val(w, y),
                    old(self).val(w, bin),
                ),
            forall|w: Seq<u64>|
                #[trigger] final(self).val(w, r.1) == ternary_value(
                    TernaryOp::Borrow,
                    old(self).val(w, x),
                    old(self).val(w, y),
                    old(self).val(w, bin),
                ),
    {
        let diff = self.ternary(TernaryOp::Sub, x, y, bin);
        let bout = self.ternary(TernaryOp::Borrow, x, y, bin);
        (diff, bout)
    }

    /// Unsigned less-than.
    pub fn icmp_ult(&mut self, x: Wire, y: Wire) -> (r: Wire)
        requires
            old(self).wf(),
            old(self).has(x),
            old(self).has(y),
        ensures
            final(self).computes_on(*old(self)),
            final(self).has(r),
            forall|w: Seq<u64>|
                #[trigger] final(self).val(w, r) == mask(old(self).val(w, x) < old(self).val(w, y)),
    {
        self.binary(BinaryOp::Ult, x, y)
    }

    /// Unsigned less-or-equal.
    pub fn icmp_ule(&mut self, x: Wire, y: Wire) -> (r: Wire)
        requires
            old(self).wf(),
            old(self).has(x),
            old(self).has(y),
        ensures
            final(self).computes_on(*old(self)),
            final(self).has(r),
            forall|w: Seq<u64>|
                #[trigger] final(self).val(w, r) == mask(
                    old(self).val(w, x) <= old(self).val(w, y),
                ),
    {
        self.binary(BinaryOp::Ule, x, y)
    }

    /// Unsigned greater-than.
    pub fn icmp_ugt(&mut self, x: Wire, y: Wire) -> (r: Wire)
        requires
            old(self).wf(),
            old(self).has(x),
            old(self).has(y),
        ensures
            final(self).computes_on(*old(self)),
            final(self).has(r),
            forall|w: Seq<u64>|
                #[trigger] final(self).val(w, r) == mask(old(self).val(w, x) > old(self).val(w, y)),
    {
        self.binary(BinaryOp::Ult, y, x)
    }

    /// Equality.
    pub fn icmp_eq(&mut self, x: Wire, y: Wire) -> (r: Wire)
        requires
            old(self).wf(),
            old(self).has(x),
            old(self).has(y),
        ensures
            final(self).computes_on(*old(self)),
            final(self).has(r),
            forall|w: Seq<u64>|
                #[trigger] final(self).val(w, r) == mask(
                    old(self).val(w, x) == old(self).val(w, y),
                ),
    {
        self.binary(BinaryOp::Eq, x, y)
    }

    /// Inequality.
    pub fn icmp_ne(&mut self, x: Wire, y: Wire) -> (r: Wire)
        requires
            old(self).wf(),
            old(self).has(x),
            old(self).has(y),
        ensures
            final(self).computes_on(*old(self)),
            final(self).has(r),
            forall|w: Seq<u64>|
                #[trigger] final(self).val(w, r) == mask(
                    old(self).val(w, x) != old(self).val(w, y),
                ),
    {
        self.binary(BinaryOp::Ne, x, y)
    }

    /// `t` where `cond` is true, else `f`.
    pub fn select(&mut self, cond: Wire, t: Wire, f: Wire) -> (r: Wire)
        requires
            old(self).wf(),
            old(self).has(cond),
            old(self).has(t),
            old(self).has(f),
        ensures
            final(self).computes_on(*old(self)),
            final(self).has(r),
            forall|w: Seq<u64>|
                #[trigger] final(self).val(w, r) == if is_true(old(self).val(w, cond)) {
                    old(self).val(w, t)
                } else {
                    old(self).val(w, f)
                },
    {
        self.ternary(TernaryOp::Select, cond, t, f)
    }

    fn push_assertion(&mut self, a: Assertion)
        requires
            old(self).wf(),
            assertion_ok(a, old(self).gates@.len()),
        ensures
            final(self).extends(*old(self)),
            final(self).n() == old(self).n(),
            forall|w: Seq<u64>|
                #[trigger] final(self).accepts(w) == (old(self).accepts(w) && assertion_holds(
                    old(self).gates@,
                    w,
                    a,
                )),
    {
        self.assertions.push(a);
        proof {
            assert forall|i: int| 0 <= i < self.assertions@.len() implies assertion_ok(
                #[trigger] self.assertions@[i],
                self.gates@.len(),
            ) by {
                if i < old(self).assertions@.len() {
                    assert(self.assertions@[i] == old(self).assertions@[i]);
                }
            }
            assert forall|w: Seq<u64>|
                #[trigger] self.accepts(w) == (old(self).accepts(w) && assertion_holds(
                    old(self).gates@,
                    w,
                    a,
                )) by {
                let n = old(self).assertions@.len() as int;
                if self.accepts(w) {
                    assert(assertion_holds(self.gates@, w, self.assertions@[n]));
                    assert forall|i: int| 0 <= i < n implies assertion_holds(
                        old(self).gates@,
                        w,
                        #[trigger] old(self).assertions@[i],
                    ) by {
                        assert(self.assertions@[i] == old(self).assertions@[i]);
                    }
                }
                if old(self).accepts(w) && assertion_holds(old(self).gates@, w, a) {
                    assert forall|i: int| 0 <= i <= n implies assertion_holds(
                        self.gates@,
                        w,
                        #[trigger] self.assertions@[i],
                    ) by {
                        if i < n {
                            assert(self.assertions@[i] == old(self).assertions@[i]);
                        }
                    }
                }
            }
        }
    }

    /// Asserts that a wire is true.
    pub fn assert_true(&mut self, x: Wire)
        requires
            old(self).wf(),
            old(self).has(x),
        ensures
            final(self).extends(*old(self)),
            final(self).n() == old(self).n(),
            forall|w: Seq<u64>|
                #[trigger] final(self).accepts(w) == (old(self).accepts(w) && is_true(
                    old(self).val(w, x),
                )),
    {
        self.push_assertion(Assertion::True(x));
    }

    /// Asserts that two wires carry the same word.
    pub fn assert_eq(&mut self, x: Wire, y: Wire)
        requires
            old(self).wf(),
            old(self).has(x),
            old(self).has(y),
        ensures
            final(self).extends(*old(self)),
            final(self).n() == old(self).n(),
            forall|w: Seq<u64>|
                #[trigger] final(self).accepts(w) == (old(self).accepts(w) && old(self).val(w, x)
                    == old(self).val(w, y)),
    {
        self.push_assertion(Assertion::Equal(x, y));
    }

    /// Closes the circuit.
    pub fn build(self) -> (r: Circuit)
        requires
            self.wf(),
        ensures
            r.builder == self,
    {
        Circuit { builder: self }
    }
}

/// A circuit that takes no more gates.
pub struct Circuit {
    /// What was recorded.
    pub builder: CircuitBuilder,
}

/// One word per wire; the input wires are filled by the caller, the others by
/// [`Circuit::populate_wire_witness`].
pub struct WitnessFiller {
    /// The words, by wire.
    pub words: Vec<u64>,
}

impl WitnessFiller {
    /// Puts a word on a wire.
    pub fn set(&mut self, x: Wire, v: u64)
        requires
            x.index < old(self).words@.len(),
        ensures
            final(self).words@ == old(self).words@.update(x.index as int, v),
    {
        self.words[x.index] = v;
    }

    /// The word on a wire.
    pub fn get(&self, x: Wire) -> (r: u64)
        requires
            x.index < self.words@.len(),
        ensures
            r == self.words@[x.index as int],
    {
        self.words[x.index]
    }
}

/// The position of the first assertion that a witness fails.
#[derive(Clone, Copy, PartialEq, Eq, Structural, Debug)]
pub struct PopulateError {
    /// The position of the assertion.
    pub assertion: usize,
}

fn unary_word(op: UnaryOp, x: u64) -> (r: u64)
    requires
        gate_ok(Gate::Unary(op, (Wire { index: 0 })), 1),
    ensures
        r == unary_value(op, x),
{
    match op {
        UnaryOp::Not => !x,
        UnaryOp::Shl(n) => x << (n as u64),
        UnaryOp::Shr(n) => x >> (n as u64),
        UnaryOp::Rotl(n) => rotate_left(x, n),
        UnaryOp::Rotr32(n) => rotate_right32(#[verifier::truncate] (x as u32), n) as u64,
        UnaryOp::Byte(j) => (x >> ((8 * j) as u64)) & 0xff,
    }
}

fn binary_word(op: BinaryOp, x: u64, y: u64) -> (r: u64)
    ensures
        r == binary_value(op, x, y),
{
    match op {
        BinaryOp::And => x & y,
        BinaryOp::Or => x | y,
        BinaryOp::Xor => x ^ y,
        BinaryOp::Add => x.wrapping_add(y),
        BinaryOp::Carry => to_mask(x > u64::MAX - y),
        BinaryOp::Add32 => wrapping_add32(
            #[verifier::truncate] (x as u32),
            #[verifier::truncate] (y as u32),
        ) as u64,
        BinaryOp::Ult => to_mask(x < y),
        BinaryOp::Ule => to_mask(x <= y),
        BinaryOp::Eq => to_mask(x == y),
        BinaryOp::Ne => to_mask(x != y),
    }
}

fn ternary_word(op: TernaryOp, x: u64, y: u64, z: u64) -> (r: u64)
    ensures
        r == ternary_value(op, x, y, z),
{
    let top: bool = z >= 0x8000_0000_0000_0000;
    match op {
        TernaryOp::Sub => {
            let d: u64 = x.wrapping_sub(y);
            d.wrapping_sub(if top { 1 } else { 0 })
        },
        TernaryOp::Borrow => to_mask(x < y || (top && x == y)),
        TernaryOp::Select => if x >= 0x8000_0000_0000_0000 {
            y
        } else {
            z
        },
    }
}

impl Circuit {
    /// Returns a witness with every word zero.
    pub fn new_witness_filler(&self) -> (r: WitnessFiller)
        ensures
            r.words@.len() == self.builder.n(),
            forall|i: int| 0 <= i < r.words@.len() ==> r.words@[i] == 0,
    {
        let mut words: Vec<u64> = Vec::new();
        let n: usize = self.builder.gates.len();
        for i in 0..n
            invariant
                words@.len() == i,
                forall|k: int| 0 <= k < i ==> words@[k] == 0,
        {
            words.push(0);
        }
        WitnessFiller { words }
    }

    /// Fills every wire from the input wires, and succeeds exactly where every assertion holds.
    pub fn populate_wire_witness(&self, filler: &mut WitnessFiller) -> (r: Result<
        (),
        PopulateError,
    >)
        requires
            self.builder.wf(),
            old(filler).words@.len() == self.builder.n(),
        ensures
            final(filler).words@.len() == self.builder.n(),
            forall|x: Wire|
                #![trigger self.builder.val(old(filler).words@, x)]
                self.builder.has(x) ==> final(filler).words@[x.index as int] == self.builder.val(
                    old(filler).words@,
                    x,
                ),
            r is Ok == self.builder.accepts(old(filler).words@),
            r matches Err(e) ==> {
                &&& e.assertion < self.builder.assertions@.len()
                &&& !assertion_holds(
                    self.builder.gates@,
                    old(filler).words@,
                    self.builder.assertions@[e.assertion as int],
                )
                &&& forall|i: int|
                    0 <= i < e.assertion ==> assertion_holds(
                        self.builder.gates@,
                        old(filler).words@,
                        #[trigger] self.builder.assertions@[i],
                    )
            },
    {
        let ghost w = filler.words@;
        let gates = &self.builder.gates;
        let n: usize = gates.len();
        let mut i: usize = 0;
        while i < n
            invariant
                n == gates@.len(),
                gates@ == self.builder.gates@,
                self.builder.wf(),
                i <= n,
                filler.words@.len() == n,
                w.len() == n,
                forall|k: int|
                    0 <= k < i ==> #[trigger] filler.words@[k] == gate_value(gates@, w, k),
                forall|k: int| i <= k < n ==> #[trigger] filler.words@[k] == w[k],
            decreases n - i,
        {
            assert(gate_ok(gates@[i as int], i as int));
            let v: u64 = match gates[i] {
                Gate::Constant(c) => c,
                Gate::Witness | Gate::Inout => filler.words[i],
                Gate::Unary(op, x) => unary_word(op, filler.words[x.index]),
                Gate::Binary(op, x, y) => binary_word(
                    op,
                    filler.words[x.index],
                    filler.words[y.index],
                ),
                Gate::Ternary(op, x, y, z) => ternary_word(
                    op,
                    filler.words[x.index],
                    filler.words[y.index],
                    filler.words[z.index],
                ),
            };
            filler.words[i] = v;
            i = i + 1;
        }
        let m: usize = self.builder.assertions.len();
        let mut k: usize = 0;
        while k < m
            invariant
                n == gates@.len(),
                w == old(filler).words@,
                m == self.builder.assertions@.len(),
                gates@ == self.builder.gates@,
                self.builder.wf(),
                k <= m,
                filler.words@.len() == n,
                forall|j: int|
                    0 <= j < n ==> #[trigger] filler.words@[j] == gate_value(gates@, w, j),
                forall|j: int|
                    0 <= j < k ==> assertion_holds(
                        gates@,
                        w,
                        #[trigger] self.builder.assertions@[j],
                    ),
            decreases m - k,
        {
            assert(assertion_ok(self.builder.assertions@[k as int], n as nat));
            let ok: bool = match self.builder.assertions[k] {
                Assertion::True(x) => filler.words[x.index] >= 0x8000_0000_0000_0000,
                Assertion::Equal(x, y) => filler.words[x.index] == filler.words[y.index],
            };
            if !ok {
                return Err(PopulateError { assertion: k });
            }
            k = k + 1;
        }
        Ok(())
    }
}

} // verus!
