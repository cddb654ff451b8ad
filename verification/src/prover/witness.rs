//! Columns that the reductions are run on.
use super::iop::ProverError;
use crate::constraint_system::{
    and_holds, and_ok, eval_operand, mul_holds, mul_ok, operand_value, AndConstraint, MulConstraint,
    Operand, ValueVec, Word,
};
use crate::field::{BinaryField, BinaryField128bGhash, B128};
use crate::math::multilinear::{eq_ind_partial_eval_scalars, eq_weight, eq_weights};
use crate::parallel::par_map_indices;
use vstd::arithmetic::power2::{lemma2_to64, lemma_pow2_strictly_increases, pow2};
use vstd::prelude::*;

verus! {

/// Two words as one field element, the first word in the low half.
pub open spec fn packed_element(lo: Word, hi: Word) -> B128 {
    BinaryField128bGhash((lo.0 + hi.0 * 0x1_0000_0000_0000_0000) as u128)
}

/// The words of a value vector, two to an element.
pub open spec fn packed_witness(words: Seq<Word>, n: nat) -> Seq<B128> {
    Seq::new(n, |j: int| packed_element(words[2 * j], words[2 * j + 1]))
}

/// Two words fill a 128-bit word without overlap.
pub(crate) proof fn lemma_pack_words(a: u128, b: u128)
    by (bit_vector)
    requires
        a <= 0xffff_ffff_ffff_ffff,
        b <= 0xffff_ffff_ffff_ffff,
    ensures
        (b << 64u128) | a == a + b * 0x1_0000_0000_0000_0000u128,
{
}

/// The element made of two words.
fn pack_words(lo: Word, hi: Word) -> (r: B128)
    ensures
        r == packed_element(lo, hi),
{
    proof {
        lemma_pack_words(lo.0 as u128, hi.0 as u128);
    }
    BinaryField128bGhash(((hi.0 as u128) << 64u128) | (lo.0 as u128))
}

/// Packs the committed words of a value vector into `2^log_witness_elems` field elements, two words
/// to an element. Fails where the words do not fit.
pub fn pack_witness(log_witness_elems: usize, witness: &ValueVec) -> (r: Result<
    Vec<B128>,
    ProverError,
>)
    requires
        log_witness_elems < 62,
        witness.data@.len() >= witness.layout.committed_total_len >= 2 * pow2(
            log_witness_elems as nat,
        ),
    ensures
        r is Err <==> witness.layout.committed_total_len > 2 * pow2(log_witness_elems as nat),
        r matches Err(e) ==> e == ProverError::WitnessTooLarge,
        r matches Ok(v) ==> v@ == packed_witness(witness.data@, pow2(log_witness_elems as nat)),
{
    let size: usize = witness.layout.committed_total_len;
    let n_witness_elems: usize = size / 2 + size % 2;
    let len: u64 = 1u64 << (log_witness_elems as u64);
    proof {
        lemma2_to64();
        vstd::arithmetic::power2::lemma2_to64_rest();
        lemma_pow2_strictly_increases(log_witness_elems as nat, 62);
        vstd::bits::lemma_u64_pow2_no_overflow(log_witness_elems as nat);
        vstd::bits::lemma_u64_shl_is_mul(1, log_witness_elems as u64);
        assert(len == pow2(log_witness_elems as nat));
    }
    if n_witness_elems as u64 > len {
        return Err(ProverError::WitnessTooLarge);
    }
    let n: usize = len as usize;
    let words = witness.data.as_slice();
    let f = |i: usize| -> (e: B128)
        requires
            i < n,
            2 * n <= words@.len(),
        ensures
            e == packed_element(words@[2 * i], words@[2 * i + 1]),
        { pack_words(words[2 * i], words[2 * i + 1]) };
    let v = par_map_indices(n, f);
    assert(v@ =~= packed_witness(witness.data@, n as nat)) by {
        assert forall|i: int| 0 <= i < n implies #[trigger] v@[i] == packed_witness(
            witness.data@,
            n as nat,
        )[i] by {
            assert(call_ensures(f, (i as usize,), v@[i]));
        }
    }
    Ok(v)
}

/// The operand columns of the AND constraints.
pub struct AndCheckWitness {
    /// Left operands.
    pub a: Vec<Word>,
    /// Right operands.
    pub b: Vec<Word>,
    /// Results.
    pub c: Vec<Word>,
}

/// The operand columns of the MUL constraints.
pub struct MulCheckWitness {
    /// Left operands.
    pub a: Vec<Word>,
    /// Right operands.
    pub b: Vec<Word>,
    /// Low words of the products.
    pub lo: Vec<Word>,
    /// High words of the products.
    pub hi: Vec<Word>,
}

/// The words that a list of operands stands for.
pub open spec fn operand_column(
    words: Seq<Word>,
    n: nat,
    op: spec_fn(int) -> Operand,
) -> Seq<Word> {
    Seq::new(n, |i: int| Word(operand_value(words, op(i)@)))
}

/// Whether the columns hold the operands of the AND constraints, row by row.
pub open spec fn is_bitand_witness(
    w: AndCheckWitness,
    words: Seq<Word>,
    cs: Seq<AndConstraint>,
) -> bool {
    &&& w.a@ == operand_column(words, cs.len(), |i: int| cs[i].a)
    &&& w.b@ == operand_column(words, cs.len(), |i: int| cs[i].b)
    &&& w.c@ == operand_column(words, cs.len(), |i: int| cs[i].c)
}

/// Whether the columns hold the operands of the MUL constraints, row by row.
pub open spec fn is_intmul_witness(
    w: MulCheckWitness,
    words: Seq<Word>,
    cs: Seq<MulConstraint>,
) -> bool {
    &&& w.a@ == operand_column(words, cs.len(), |i: int| cs[i].a)
    &&& w.b@ == operand_column(words, cs.len(), |i: int| cs[i].b)
    &&& w.lo@ == operand_column(words, cs.len(), |i: int| cs[i].lo)
    &&& w.hi@ == operand_column(words, cs.len(), |i: int| cs[i].hi)
}

/// Row `i` of the AND columns is that of constraint `i`, whichever it is: each column has a row for
/// every constraint, and `a & b == c` in row `i` exactly where constraint `i` holds.
pub proof fn lemma_bitand_row(
    w: AndCheckWitness,
    words: Seq<Word>,
    cs: Seq<AndConstraint>,
    i: int,
)
    requires
        is_bitand_witness(w, words, cs),
        0 <= i < cs.len(),
    ensures
        w.a@.len() == cs.len(),
        w.b@.len() == cs.len(),
        w.c@.len() == cs.len(),
        w.a@[i].0 == operand_value(words, cs[i].a@),
        w.b@[i].0 == operand_value(words, cs[i].b@),
        w.c@[i].0 == operand_value(words, cs[i].c@),
        (w.a@[i].0 & w.b@[i].0 == w.c@[i].0) == and_holds(words, cs[i]),
{
}

/// Row `i` of the MUL columns is that of constraint `i`, whichever it is: each column has a row for
/// every constraint, and `a * b == hi * 2^64 + lo` in row `i` exactly where constraint `i` holds.
pub proof fn lemma_intmul_row(
    w: MulCheckWitness,
    words: Seq<Word>,
    cs: Seq<MulConstraint>,
    i: int,
)
    requires
        is_intmul_witness(w, words, cs),
        0 <= i < cs.len(),
    ensures
        w.a@.len() == cs.len(),
        w.b@.len() == cs.len(),
        w.lo@.len() == cs.len(),
        w.hi@.len() == cs.len(),
        w.a@[i].0 == operand_value(words, cs[i].a@),
        w.b@[i].0 == operand_value(words, cs[i].b@),
        w.lo@[i].0 == operand_value(words, cs[i].lo@),
        w.hi@[i].0 == operand_value(words, cs[i].hi@),
        (w.a@[i].0 * w.b@[i].0 == 0x1_0000_0000_0000_0000 * w.hi@[i].0 + w.lo@[i].0)
            == mul_holds(words, cs[i]),
{
}

/// Evaluates the operands of every AND constraint.
pub fn build_bitand_witness(and_constraints: &[AndConstraint], witness: &ValueVec) -> (r:
    AndCheckWitness)
    requires
        forall|i: int|
            0 <= i < and_constraints@.len() ==> and_ok(
                #[trigger] and_constraints@[i],
                witness.data@.len() as int,
            ),
    ensures
        r.a@ == operand_column(
            witness.data@,
            and_constraints@.len(),
            |i: int| and_constraints@[i].a,
        ),
        r.b@ == operand_column(
            witness.data@,
            and_constraints@.len(),
            |i: int| and_constraints@[i].b,
        ),
        r.c@ == operand_column(
            witness.data@,
            and_constraints@.len(),
            |i: int| and_constraints@[i].c,
        ),
        is_bitand_witness(r, witness.data@, and_constraints@),
{
    let n: usize = and_constraints.len();
    let words = witness.data.as_slice();
    let ghost cs = and_constraints@;
    let f = |i: usize| -> (e: (Word, Word, Word))
        requires
            i < n,
            n == and_constraints@.len(),
            and_ok(and_constraints@[i as int], words@.len() as int),
        ensures
            e.0.0 == operand_value(words@, and_constraints@[i as int].a@),
            e.1.0 == operand_value(words@, and_constraints@[i as int].b@),
            e.2.0 == operand_value(words@, and_constraints@[i as int].c@),
        {
            (
                eval_operand(words, &and_constraints[i].a),
                eval_operand(words, &and_constraints[i].b),
                eval_operand(words, &and_constraints[i].c),
            )
        };
    assert forall|i: usize| i < n implies call_requires(f, (i,)) by {
        assert(and_ok(and_constraints@[i as int], words@.len() as int));
    }
    let rows = par_map_indices(n, f);
    let mut a: Vec<Word> = Vec::new();
    let mut b: Vec<Word> = Vec::new();
    let mut c: Vec<Word> = Vec::new();
    for i in 0..n
        invariant
            n == rows@.len(),
            n == cs.len(),
            forall|k: int|
                0 <= k < n ==> {
                    &&& (#[trigger] rows@[k]).0.0 == operand_value(words@, cs[k].a@)
                    &&& rows@[k].1.0 == operand_value(words@, cs[k].b@)
                    &&& rows@[k].2.0 == operand_value(words@, cs[k].c@)
                },
            a@.len() == i,
            b@.len() == i,
            c@.len() == i,
            forall|k: int|
                0 <= k < i ==> (#[trigger] a@[k]).0 == operand_value(words@, cs[k].a@),
            forall|k: int|
                0 <= k < i ==> (#[trigger] b@[k]).0 == operand_value(words@, cs[k].b@),
            forall|k: int|
                0 <= k < i ==> (#[trigger] c@[k]).0 == operand_value(words@, cs[k].c@),
    {
        let row = rows[i];
        a.push(row.0);
        b.push(row.1);
        c.push(row.2);
    }
    assert(a@ =~= operand_column(words@, cs.len(), |i: int| cs[i].a));
    assert(b@ =~= operand_column(words@, cs.len(), |i: int| cs[i].b));
    assert(c@ =~= operand_column(words@, cs.len(), |i: int| cs[i].c));
    AndCheckWitness { a, b, c }
}

/// Evaluates the operands of every MUL constraint.
pub fn build_intmul_witness(mul_constraints: &[MulConstraint], witness: &ValueVec) -> (r:
    MulCheckWitness)
    requires
        forall|i: int|
            0 <= i < mul_constraints@.len() ==> mul_ok(
                #[trigger] mul_constraints@[i],
                witness.data@.len() as int,
            ),
    ensures
        r.a@ == operand_column(
            witness.data@,
            mul_constraints@.len(),
            |i: int| mul_constraints@[i].a,
        ),
        r.b@ == operand_column(
            witness.data@,
            mul_constraints@.len(),
            |i: int| mul_constraints@[i].b,
        ),
        r.lo@ == operand_column(
            witness.data@,
            mul_constraints@.len(),
            |i: int| mul_constraints@[i].lo,
        ),
        r.hi@ == operand_column(
            witness.data@,
            mul_constraints@.len(),
            |i: int| mul_constraints@[i].hi,
        ),
        is_intmul_witness(r, witness.data@, mul_constraints@),
{
    let n: usize = mul_constraints.len();
    let words = witness.data.as_slice();
    let ghost cs = mul_constraints@;
    let f = |i: usize| -> (e: (Word, Word, Word, Word))
        requires
            i < n,
            n == mul_constraints@.len(),
            mul_ok(mul_constraints@[i as int], words@.len() as int),
        ensures
            e.0.0 == operand_value(words@, mul_constraints@[i as int].a@),
            e.1.0 == operand_value(words@, mul_constraints@[i as int].b@),
            e.2.0 == operand_value(words@, mul_constraints@[i as int].lo@),
            e.3.0 == operand_value(words@, mul_constraints@[i as int].hi@),
        {
            (
                eval_operand(words, &mul_constraints[i].a),
                eval_operand(words, &mul_constraints[i].b),
                eval_operand(words, &mul_constraints[i].lo),
                eval_operand(words, &mul_constraints[i].hi),
            )
        };
    assert forall|i: usize| i < n implies call_requires(f, (i,)) by {
        assert(mul_ok(mul_constraints@[i as int], words@.len() as int));
    }
    let rows = par_map_indices(n, f);
    let mut a: Vec<Word> = Vec::new();
    let mut b: Vec<Word> = Vec::new();
    let mut lo: Vec<Word> = Vec::new();
    let mut hi: Vec<Word> = Vec::new();
    for i in 0..n
        invariant
            n == rows@.len(),
            n == cs.len(),
            forall|k: int|
                0 <= k < n ==> {
                    &&& (#[trigger] rows@[k]).0.0 == operand_value(words@, cs[k].a@)
                    &&& rows@[k].1.0 == operand_value(words@, cs[k].b@)
                    &&& rows@[k].2.0 == operand_value(words@, cs[k].lo@)
                    &&& rows@[k].3.0 == operand_value(words@, cs[k].hi@)
                },
            a@.len() == i,
            b@.len() == i,
            lo@.len() == i,
            hi@.len() == i,
            forall|k: int|
                0 <= k < i ==> (#[trigger] a@[k]).0 == operand_value(words@, cs[k].a@),
            forall|k: int|
                0 <= k < i ==> (#[trigger] b@[k]).0 == operand_value(words@, cs[k].b@),
            forall|k: int|
                0 <= k < i ==> (#[trigger] lo@[k]).0 == operand_value(words@, cs[k].lo@),
            forall|k: int|
                0 <= k < i ==> (#[trigger] hi@[k]).0 == operand_value(words@, cs[k].hi@),
    {
        let row = rows[i];
        a.push(row.0);
        b.push(row.1);
        lo.push(row.2);
        hi.push(row.3);
    }
    assert(a@ =~= operand_column(words@, cs.len(), |i: int| cs[i].a));
    assert(b@ =~= operand_column(words@, cs.len(), |i: int| cs[i].b));
    assert(lo@ =~= operand_column(words@, cs.len(), |i: int| cs[i].lo));
    assert(hi@ =~= operand_column(words@, cs.len(), |i: int| cs[i].hi));
    MulCheckWitness { a, b, lo, hi }
}

/// The AND columns satisfy `a & b == c` in every row exactly where the AND constraints hold.
pub proof fn lemma_bitand_columns(w: AndCheckWitness, words: Seq<Word>, cs: Seq<AndConstraint>)
    requires
        w.a@ == operand_column(words, cs.len(), |i: int| cs[i].a),
        w.b@ == operand_column(words, cs.len(), |i: int| cs[i].b),
        w.c@ == operand_column(words, cs.len(), |i: int| cs[i].c),
    ensures
        (forall|i: int| 0 <= i < cs.len() ==> and_holds(words, #[trigger] cs[i])) <==> (forall|
            i: int,
        |
            0 <= i < cs.len() ==> #[trigger] w.a@[i].0 & w.b@[i].0 == w.c@[i].0),
{
    assert forall|i: int| 0 <= i < cs.len() implies #[trigger] and_holds(words, cs[i]) == (w.a@[i].0
        & w.b@[i].0 == w.c@[i].0) by {}
    if forall|i: int| 0 <= i < cs.len() ==> #[trigger] w.a@[i].0 & w.b@[i].0 == w.c@[i].0 {
        assert forall|i: int| 0 <= i < cs.len() implies and_holds(words, #[trigger] cs[i]) by {
            assert(w.a@[i].0 & w.b@[i].0 == w.c@[i].0);
        }
    }
    if forall|i: int| 0 <= i < cs.len() ==> and_holds(words, #[trigger] cs[i]) {
        assert forall|i: int| 0 <= i < cs.len() implies #[trigger] w.a@[i].0 & w.b@[i].0
            == w.c@[i].0 by {
            assert(and_holds(words, cs[i]));
        }
    }
}

/// The MUL columns satisfy `a * b == hi * 2^64 + lo` in every row exactly where the MUL constraints
/// hold.
pub proof fn lemma_intmul_columns(w: MulCheckWitness, words: Seq<Word>, cs: Seq<MulConstraint>)
    requires
        w.a@ == operand_column(words, cs.len(), |i: int| cs[i].a),
        w.b@ == operand_column(words, cs.len(), |i: int| cs[i].b),
        w.lo@ == operand_column(words, cs.len(), |i: int| cs[i].lo),
        w.hi@ == operand_column(words, cs.len(), |i: int| cs[i].hi),
    ensures
        (forall|i: int| 0 <= i < cs.len() ==> mul_holds(words, #[trigger] cs[i])) <==> (forall|
            i: int,
        |
            0 <= i < cs.len() ==> (#[trigger] w.a@[i]).0 * w.b@[i].0 == 0x1_0000_0000_0000_0000
                * w.hi@[i].0 + w.lo@[i].0),
{
    assert forall|i: int| 0 <= i < cs.len() implies #[trigger] mul_holds(words, cs[i]) == (
    w.a@[i].0 * w.b@[i].0 == 0x1_0000_0000_0000_0000 * w.hi@[i].0 + w.lo@[i].0) by {}
    if forall|i: int|
        0 <= i < cs.len() ==> (#[trigger] w.a@[i]).0 * w.b@[i].0 == 0x1_0000_0000_0000_0000
            * w.hi@[i].0 + w.lo@[i].0 {
        assert forall|i: int| 0 <= i < cs.len() implies mul_holds(words, #[trigger] cs[i]) by {
            let a = w.a@[i];
        }
    }
    if forall|i: int| 0 <= i < cs.len() ==> mul_holds(words, #[trigger] cs[i]) {
        assert forall|i: int| 0 <= i < cs.len() implies (#[trigger] w.a@[i]).0 * w.b@[i].0
            == 0x1_0000_0000_0000_0000 * w.hi@[i].0 + w.lo@[i].0 by {
            assert(mul_holds(words, cs[i]));
        }
    }
}

/// The value of the batched transparent polynomial at index `i`.
pub open spec fn batched_transparent_at(
    rs_eq_ind: Seq<B128>,
    point: Seq<B128>,
    batch_coeff: B128,
    i: int,
) -> B128 {
    if i < pow2(point.len()) {
        rs_eq_ind[i].plus(eq_weight(point, i).times(batch_coeff))
    } else {
        rs_eq_ind[i]
    }
}

/// Batches the transparent polynomial of the public check with the ring-switch equality indicator:
/// `rs_eq_ind + batch_coeff * eq(pubcheck_point || 0, .)`. The scaled indicator of the public check
/// is added to the first `2^k` entries, for `k` coordinates.
pub fn compute_batched_transparent(
    rs_eq_ind: Vec<B128>,
    pubcheck_point: &[B128],
    batch_coeff: B128,
) -> (r: Vec<B128>)
    requires
        rs_eq_ind@.len() >= pow2(pubcheck_point@.len()),
    ensures
        r@ == Seq::new(
            rs_eq_ind@.len(),
            |i: int| batched_transparent_at(rs_eq_ind@, pubcheck_point@, batch_coeff, i),
        ),
{
    let total: usize = rs_eq_ind.len();
    let pubcheck_eq = eq_ind_partial_eval_scalars(pubcheck_point);
    let n: usize = pubcheck_eq.len();
    let ghost before = rs_eq_ind@;
    let mut out = rs_eq_ind;
    for i in 0..n
        invariant
            n == pubcheck_eq@.len(),
            n == pow2(pubcheck_point@.len()),
            pubcheck_eq@ == eq_weights(pubcheck_point@),
            n <= before.len(),
            out@.len() == before.len(),
            forall|k: int|
                0 <= k < i ==> #[trigger] out@[k] == batched_transparent_at(
                    before,
                    pubcheck_point@,
                    batch_coeff,
                    k,
                ),
            forall|k: int| i <= k < before.len() ==> #[trigger] out@[k] == before[k],
    {
        let v = out[i].add(pubcheck_eq[i].mul(batch_coeff));
        out.set(i, v);
    }
    assert(out@ =~= Seq::new(
        before.len(),
        |i: int| batched_transparent_at(before, pubcheck_point@, batch_coeff, i),
    ));
    out
}

} // verus!
