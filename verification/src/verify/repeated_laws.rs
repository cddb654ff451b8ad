//! What a repeated descriptor stands for.
use super::repeated::{
    binding_scalars_of, is_base, is_offset_and, is_offset_mul, is_offset_operand, le_value,
    RepeatedConstraintSystem,
};
use crate::constraint_system::{
    and_holds, and_ok, mul_holds, mul_ok, operand_ok, operand_value, ConstraintSystem,
    ShiftedValueIndex, Word,
};
use vstd::arithmetic::power2::pow2;
use vstd::prelude::*;

verus! {

/// The words of copy `i`.
pub open spec fn copy_words(words: Seq<Word>, values: int, i: int) -> Seq<Word> {
    words.subrange(i * values, (i + 1) * values)
}

proof fn lemma_offset_operand(
    words: Seq<Word>,
    flat: Seq<ShiftedValueIndex>,
    base: Seq<ShiftedValueIndex>,
    values: int,
    i: int,
)
    requires
        0 <= i,
        0 <= values,
        (i + 1) * values <= words.len(),
        operand_ok(base, values),
        is_offset_operand(flat, base, i * values),
    ensures
        operand_value(words, flat) == operand_value(copy_words(words, values, i), base),
    decreases base.len(),
{
    if base.len() > 0 {
        let (f, b) = (flat.drop_last(), base.drop_last());
        assert forall|k: int| 0 <= k < b.len() implies {
            &&& (#[trigger] f[k]).value_index.0 == b[k].value_index.0 + i * values
            &&& f[k].shift_variant == b[k].shift_variant
            &&& f[k].amount == b[k].amount
        } by {
            assert(flat[k] == f[k]);
        }
        assert(operand_ok(b, values)) by {
            assert forall|k: int| 0 <= k < b.len() implies (#[trigger] b[k]).value_index.0 < values
                && b[k].amount < 64 by {
                assert(base[k] == b[k]);
            }
        }
        lemma_offset_operand(words, f, b, values, i);
        let last = base.len() - 1;
        assert(flat[last].value_index.0 == base[last].value_index.0 + i * values);
        assert((i + 1) * values == i * values + values) by (nonlinear_arith);
        assert(0 <= i * values) by (nonlinear_arith)
            requires
                0 <= i,
                0 <= values,
        ;
        assert(base[last].value_index.0 < values);
        assert(copy_words(words, values, i)[base[last].value_index.0 as int]
            == words[flat[last].value_index.0 as int]);
    }
}

proof fn lemma_row(i: int, r: int, n: int, total: int)
    requires
        0 <= r < n,
        0 <= i < total,
    ensures
        0 <= i * n + r < n * total,
        (i * n + r) / n == i,
        (i * n + r) % n == r,
{
    vstd::arithmetic::div_mod::lemma_fundamental_div_mod_converse(i * n + r, n, i, r);
    assert(0 <= i * n + r < n * total) by (nonlinear_arith)
        requires
            0 <= r < n,
            0 <= i,
            i + 1 <= total,
    ;
}

proof fn lemma_copy_end(i: int, values: int, total: int)
    requires
        0 <= values,
        i + 1 <= total,
    ensures
        (i + 1) * values <= values * total,
{
    assert((i + 1) * values <= values * total) by (nonlinear_arith)
        requires
            i + 1 <= total,
            0 <= values,
    ;
}

proof fn lemma_copy_of(k: int, n: int, total: int)
    requires
        0 < n,
        0 <= k < n * total,
    ensures
        0 <= k / n < total,
        0 <= k % n < n,
        k == (k / n) * n + k % n,
{
    vstd::arithmetic::div_mod::lemma_fundamental_div_mod(k, n);
    vstd::arithmetic::div_mod::lemma_mod_bound(k, n);
    let (q, r) = (k / n, k % n);
    assert(n * q == q * n) by (nonlinear_arith);
    assert(0 <= q < total) by (nonlinear_arith)
        requires
            0 <= q * n + r < n * total,
            0 <= r < n,
    ;
}

/// A flat system holds exactly where the base system holds of every copy.
pub proof fn lemma_flat_iff_copies(
    r: RepeatedConstraintSystem,
    flat: ConstraintSystem,
    words: Seq<Word>,
)
    requires
        is_base(r.base),
        r.base.wf(),
        r.is_flat(flat),
        words.len() >= flat.value_vec_layout.committed_total_len,
    ensures
        flat.satisfied_by(words) <==> forall|i: int|
            0 <= i < pow2(r.log_instances as nat) ==> #[trigger] copy_holds(r, words, i),
{
    let values = r.base.value_vec_layout.committed_total_len as int;
    let total = pow2(r.log_instances as nat) as int;
    let (n_and, n_mul) = (r.base.and_constraints@.len() as int, r.base.mul_constraints@.len() as int);
    assert forall|i: int, k: int| 0 <= i < total && 0 <= k < n_and implies and_holds(
        words,
        #[trigger] flat.and_constraints@[i * n_and + k],
    ) == and_holds(copy_words(words, values, i), r.base.and_constraints@[k]) by {
        lemma_row(i, k, n_and, total);
        let (f, b) = (flat.and_constraints@[i * n_and + k], r.base.and_constraints@[k]);
        assert(is_offset_and(f, b, i * values));
        assert(and_ok(b, values));
        lemma_copy_end(i, values, total);
        lemma_offset_operand(words, f.a@, b.a@, values, i);
        lemma_offset_operand(words, f.b@, b.b@, values, i);
        lemma_offset_operand(words, f.c@, b.c@, values, i);
    }
    assert forall|i: int, k: int| 0 <= i < total && 0 <= k < n_mul implies mul_holds(
        words,
        #[trigger] flat.mul_constraints@[i * n_mul + k],
    ) == mul_holds(copy_words(words, values, i), r.base.mul_constraints@[k]) by {
        lemma_row(i, k, n_mul, total);
        let (f, b) = (flat.mul_constraints@[i * n_mul + k], r.base.mul_constraints@[k]);
        assert(is_offset_mul(f, b, i * values));
        assert(mul_ok(b, values));
        lemma_copy_end(i, values, total);
        lemma_offset_operand(words, f.a@, b.a@, values, i);
        lemma_offset_operand(words, f.b@, b.b@, values, i);
        lemma_offset_operand(words, f.lo@, b.lo@, values, i);
        lemma_offset_operand(words, f.hi@, b.hi@, values, i);
    }
    if flat.satisfied_by(words) {
        assert forall|i: int| 0 <= i < total implies #[trigger] copy_holds(r, words, i) by {
            let cw = copy_words(words, values, i);
            assert forall|k: int| 0 <= k < n_and implies and_holds(
                cw,
                #[trigger] r.base.and_constraints@[k],
            ) by {
                lemma_row(i, k, n_and, total);
                assert(and_holds(words, flat.and_constraints@[i * n_and + k]));
            }
            assert forall|k: int| 0 <= k < n_mul implies mul_holds(
                cw,
                #[trigger] r.base.mul_constraints@[k],
            ) by {
                lemma_row(i, k, n_mul, total);
                assert(mul_holds(words, flat.mul_constraints@[i * n_mul + k]));
            }
        }
    }
    if forall|i: int| 0 <= i < total ==> #[trigger] copy_holds(r, words, i) {
        lemma_positive(r);
        assert forall|k: int| 0 <= k < flat.and_constraints@.len() implies and_holds(
            words,
            #[trigger] flat.and_constraints@[k],
        ) by {
            lemma_copy_of(k, n_and, total);
            let (i, row) = (k / n_and, k % n_and);
            assert(copy_holds(r, words, i));
            assert(and_holds(copy_words(words, values, i), r.base.and_constraints@[row]));
            assert(flat.and_constraints@[i * n_and + row] == flat.and_constraints@[k]);
        }
        assert forall|k: int| 0 <= k < flat.mul_constraints@.len() implies mul_holds(
            words,
            #[trigger] flat.mul_constraints@[k],
        ) by {
            lemma_copy_of(k, n_mul, total);
            let (i, row) = (k / n_mul, k % n_mul);
            assert(copy_holds(r, words, i));
            assert(mul_holds(copy_words(words, values, i), r.base.mul_constraints@[row]));
            assert(flat.mul_constraints@[i * n_mul + row] == flat.mul_constraints@[k]);
        }
    }
}

/// Whether the base system holds of copy `i`.
pub open spec fn copy_holds(r: RepeatedConstraintSystem, words: Seq<Word>, i: int) -> bool {
    r.base.satisfied_by(
        copy_words(words, r.base.value_vec_layout.committed_total_len as int, i),
    )
}

proof fn lemma_positive(r: RepeatedConstraintSystem)
    requires
        is_base(r.base),
    ensures
        r.base.and_constraints@.len() > 0,
        r.base.mul_constraints@.len() > 0,
{
    let j = choose|k: nat| r.base.and_constraints@.len() == pow2(k);
    let k = choose|k: nat| r.base.mul_constraints@.len() == pow2(k);
    vstd::arithmetic::power2::lemma_pow2_pos(j);
    vstd::arithmetic::power2::lemma_pow2_pos(k);
}

proof fn lemma_le_injective(a: Seq<u8>, b: Seq<u8>)
    requires
        a.len() == b.len(),
        le_value(a) == le_value(b),
    ensures
        a == b,
    decreases a.len(),
{
    if a.len() > 0 {
        assert(a[0] == b[0] && le_value(a.skip(1)) == le_value(b.skip(1)));
        lemma_le_injective(a.skip(1), b.skip(1));
        assert forall|i: int| 0 <= i < a.len() implies a[i] == b[i] by {
            if i > 0 {
                assert(a.skip(1)[i - 1] == b.skip(1)[i - 1]);
            }
        }
    }
    assert(a =~= b);
}

/// The transcript elements determine the descriptor but for the base system, of which they
/// determine the dimensions and the digest.
pub proof fn lemma_binding_scalars_bind(a: RepeatedConstraintSystem, b: RepeatedConstraintSystem)
    requires
        binding_scalars_of(a) == binding_scalars_of(b),
        a.base.and_constraints@.len() <= u64::MAX,
        b.base.and_constraints@.len() <= u64::MAX,
        a.base.mul_constraints@.len() <= u64::MAX,
        b.base.mul_constraints@.len() <= u64::MAX,
    ensures
        a.log_instances == b.log_instances,
        a.value_layout == b.value_layout,
        a.public_binding == b.public_binding,
        a.base.value_vec_layout.committed_total_len == b.base.value_vec_layout.committed_total_len,
        a.base.and_constraints@.len() == b.base.and_constraints@.len(),
        a.base.mul_constraints@.len() == b.base.mul_constraints@.len(),
        a.base_circuit_digest@ == b.base_circuit_digest@,
{
    let (s, t) = (binding_scalars_of(a), binding_scalars_of(b));
    assert(s[1] == t[1]);
    assert(s[4] == t[4]);
    assert(s[5] == t[5]);
    assert(s[6] == t[6]);
    assert(s[7] == t[7]);
    let (da, db) = (a.base_circuit_digest@, b.base_circuit_digest@);
    super::repeated::lemma_le_fits(da.take(16));
    super::repeated::lemma_le_fits(db.take(16));
    super::repeated::lemma_le_fits(da.skip(16));
    super::repeated::lemma_le_fits(db.skip(16));
    lemma_le_injective(da.take(16), db.take(16));
    lemma_le_injective(da.skip(16), db.skip(16));
    assert(da =~= da.take(16) + da.skip(16));
    assert(db =~= db.take(16) + db.skip(16));
}

} // verus!
