//! Descriptor for batches of repeated identical constraint systems.
use super::repeated_monster::is_pow2;
use crate::constraint_system::{
    AndConstraint, ConstraintSystem, MulConstraint, Operand, ShiftedValueIndex,
};
use crate::field::{BinaryField128bGhash, B128};
use crate::hash::{sha256, sha256_of};
use crate::prover::witness::lemma_pack_words;
use vstd::arithmetic::power2::{lemma2_to64, lemma_pow2_adds, pow2};
use vstd::prelude::*;

verus! {

/// Version of the descriptor.
pub const REPEATED_DESCRIPTOR_VERSION: u128 = 1;

/// Value-vector layout of the repeated copies.
#[derive(Debug, Clone, Copy, PartialEq, Eq, Structural)]
pub enum RepeatedValueLayout {
    /// Copy after copy: `flat_value = instance * base_value_count + local_value`.
    InstanceMajor,
}

/// How the public data of each copy is bound to the proof.
#[derive(Debug, Clone, Copy, PartialEq, Eq, Structural)]
pub enum RepeatedPublicBinding {
    /// Public inputs are supplied through the flat public input section.
    FlatPublicInputs,
}

/// A repeated identical constraint system.
#[derive(Debug, Clone)]
pub struct RepeatedConstraintSystem {
    /// The system of one copy.
    pub base: ConstraintSystem,
    /// The number of variables that index the copies.
    pub log_instances: usize,
    /// The value layout.
    pub value_layout: RepeatedValueLayout,
    /// The public binding.
    pub public_binding: RepeatedPublicBinding,
    /// The SHA-256 digest of the serialized base system.
    pub base_circuit_digest: [u8; 32],
}

/// Whether a constraint system has the dimensions of a base system: powers of two.
pub open spec fn is_base(base: ConstraintSystem) -> bool {
    &&& is_pow2(base.value_vec_layout.committed_total_len as nat)
    &&& is_pow2(base.and_constraints@.len())
    &&& is_pow2(base.mul_constraints@.len())
}

/// The number of a value layout.
pub open spec fn layout_code(layout: RepeatedValueLayout) -> u128 {
    match layout {
        RepeatedValueLayout::InstanceMajor => 0,
    }
}

/// The number of a public binding.
pub open spec fn binding_code(binding: RepeatedPublicBinding) -> u128 {
    match binding {
        RepeatedPublicBinding::FlatPublicInputs => 0,
    }
}

/// The number that the bytes encode, the least significant byte first.
pub open spec fn le_value(bytes: Seq<u8>) -> nat
    decreases bytes.len(),
{
    if bytes.len() == 0 {
        0
    } else {
        bytes[0] as nat + 256 * le_value(bytes.skip(1))
    }
}

/// The elements that bind a descriptor to a transcript.
pub open spec fn binding_scalars_of(r: RepeatedConstraintSystem) -> Seq<B128> {
    seq![
        BinaryField128bGhash(1),
        BinaryField128bGhash(r.log_instances as u128),
        BinaryField128bGhash(layout_code(r.value_layout)),
        BinaryField128bGhash(binding_code(r.public_binding)),
        BinaryField128bGhash(r.base.value_vec_layout.committed_total_len as u128),
        BinaryField128bGhash(
            (r.base.and_constraints@.len() + r.base.mul_constraints@.len()
                * 0x1_0000_0000_0000_0000) as u128,
        ),
        BinaryField128bGhash(
            le_value(r.base_circuit_digest@.take(16)) as u128,
        ),
        BinaryField128bGhash(
            le_value(r.base_circuit_digest@.skip(16)) as u128,
        ),
    ]
}

/// An operand moved to copy number `offset / base_value_count`.
pub open spec fn is_offset_operand(
    flat: Seq<ShiftedValueIndex>,
    base: Seq<ShiftedValueIndex>,
    offset: int,
) -> bool {
    &&& flat.len() == base.len()
    &&& forall|i: int|
        0 <= i < base.len() ==> {
            &&& (#[trigger] flat[i]).value_index.0 == base[i].value_index.0 + offset
            &&& flat[i].shift_variant == base[i].shift_variant
            &&& flat[i].amount == base[i].amount
        }
}

/// An AND constraint moved to a copy.
pub open spec fn is_offset_and(flat: AndConstraint, base: AndConstraint, offset: int) -> bool {
    &&& is_offset_operand(flat.a@, base.a@, offset)
    &&& is_offset_operand(flat.b@, base.b@, offset)
    &&& is_offset_operand(flat.c@, base.c@, offset)
}

/// A MUL constraint moved to a copy.
pub open spec fn is_offset_mul(flat: MulConstraint, base: MulConstraint, offset: int) -> bool {
    &&& is_offset_operand(flat.a@, base.a@, offset)
    &&& is_offset_operand(flat.b@, base.b@, offset)
    &&& is_offset_operand(flat.lo@, base.lo@, offset)
    &&& is_offset_operand(flat.hi@, base.hi@, offset)
}

impl RepeatedConstraintSystem {
    /// Constructs a descriptor with the instance-major layout and flat public inputs.
    /// `serialized_base` holds the serialization of `base`.
    pub fn new(base: ConstraintSystem, serialized_base: &[u8], log_instances: usize) -> (r: Self)
        requires
            is_base(base),
        ensures
            r.base == base,
            r.log_instances == log_instances,
            r.value_layout == RepeatedValueLayout::InstanceMajor,
            r.public_binding == RepeatedPublicBinding::FlatPublicInputs,
            r.base_circuit_digest@ == sha256_of(serialized_base@),
    {
        Self::with_modes(
            base,
            serialized_base,
            log_instances,
            RepeatedValueLayout::InstanceMajor,
            RepeatedPublicBinding::FlatPublicInputs,
        )
    }

    /// Constructs a descriptor with the given layout and public binding modes.
    pub fn with_modes(
        base: ConstraintSystem,
        serialized_base: &[u8],
        log_instances: usize,
        value_layout: RepeatedValueLayout,
        public_binding: RepeatedPublicBinding,
    ) -> (r: Self)
        requires
            is_base(base),
        ensures
            r.base == base,
            r.log_instances == log_instances,
            r.value_layout == value_layout,
            r.public_binding == public_binding,
            r.base_circuit_digest@ == sha256_of(serialized_base@),
    {
        let base_circuit_digest = digest_constraint_system(serialized_base);
        RepeatedConstraintSystem {
            base,
            log_instances,
            value_layout,
            public_binding,
            base_circuit_digest,
        }
    }

    /// Returns the base constraint system.
    pub fn base(&self) -> (r: &ConstraintSystem)
        ensures
            *r == self.base,
    {
        &self.base
    }

    /// Returns the number of instance-axis variables.
    pub fn log_instances(&self) -> (r: usize)
        ensures
            r == self.log_instances,
    {
        self.log_instances
    }

    /// Returns the value layout mode.
    pub fn value_layout(&self) -> (r: RepeatedValueLayout)
        ensures
            r == self.value_layout,
    {
        self.value_layout
    }

    /// Returns the public binding mode.
    pub fn public_binding(&self) -> (r: RepeatedPublicBinding)
        ensures
            r == self.public_binding,
    {
        self.public_binding
    }

    /// Returns the SHA-256 digest of the serialized base constraint system.
    pub fn base_circuit_digest(&self) -> (r: [u8; 32])
        ensures
            r == self.base_circuit_digest,
    {
        self.base_circuit_digest
    }

    /// Returns the transcript elements that bind the descriptor.
    pub fn binding_scalars(&self) -> (r: [B128; 8])
        ensures
            r@ == binding_scalars_of(*self),
    {
        let digest = digest_to_b128s(self.base_circuit_digest);
        let value_layout: u128 = match self.value_layout {
            RepeatedValueLayout::InstanceMajor => 0,
        };
        let public_binding: u128 = match self.public_binding {
            RepeatedPublicBinding::FlatPublicInputs => 0,
        };
        let n_and: u128 = self.base.and_constraints.len() as u128;
        let n_mul: u128 = self.base.mul_constraints.len() as u128;
        proof {
            lemma_pack_words(n_and, n_mul);
        }
        let r = [
            BinaryField128bGhash(REPEATED_DESCRIPTOR_VERSION),
            BinaryField128bGhash(self.log_instances as u128),
            BinaryField128bGhash(value_layout),
            BinaryField128bGhash(public_binding),
            BinaryField128bGhash(
                self.base.value_vec_layout.committed_total_len as u128,
            ),
            BinaryField128bGhash((n_mul << 64u128) | n_and),
            digest[0],
            digest[1],
        ];
        assert(r@ =~= binding_scalars_of(*self));
        r
    }

    /// Whether a system has the dimensions of this one's copies laid out flat.
    pub open spec fn flat_shape(self, flat: ConstraintSystem) -> bool {
        let instances = pow2(self.log_instances as nat);
        &&& flat.value_vec_layout.committed_total_len
            == self.base.value_vec_layout.committed_total_len * instances
        &&& flat.and_constraints@.len() == self.base.and_constraints@.len() * instances
        &&& flat.mul_constraints@.len() == self.base.mul_constraints@.len() * instances
    }

    /// Returns whether `flat` has the tensor dimensions implied by this descriptor.
    pub fn matches_flat_shape(&self, flat: &ConstraintSystem) -> (r: bool)
        requires
            self.log_instances < 64,
        ensures
            r == self.flat_shape(*flat),
    {
        let instances: u128 = 1u128 << (self.log_instances as u128);
        proof {
            lemma_instances(self.log_instances as nat);
        }
        is_multiple(
            flat.value_vec_layout.committed_total_len,
            self.base.value_vec_layout.committed_total_len,
            instances,
        ) && is_multiple(
            flat.and_constraints.len(),
            self.base.and_constraints.len(),
            instances,
        ) && is_multiple(flat.mul_constraints.len(), self.base.mul_constraints.len(), instances)
    }

    /// Whether a system is this one's copies, laid out flat: constraint `r` of copy `i` is base
    /// constraint `r` with its values moved by `i` times the base value count.
    pub open spec fn is_flat(self, flat: ConstraintSystem) -> bool {
        let (n_and, n_mul) = (
            self.base.and_constraints@.len() as int,
            self.base.mul_constraints@.len() as int,
        );
        let values = self.base.value_vec_layout.committed_total_len as int;
        &&& self.flat_shape(flat)
        &&& forall|k: int|
            0 <= k < flat.and_constraints@.len() ==> is_offset_and(
                #[trigger] flat.and_constraints@[k],
                self.base.and_constraints@[k % n_and],
                (k / n_and) * values,
            )
        &&& forall|k: int|
            0 <= k < flat.mul_constraints@.len() ==> is_offset_mul(
                #[trigger] flat.mul_constraints@[k],
                self.base.mul_constraints@[k % n_mul],
                (k / n_mul) * values,
            )
    }

    /// Returns whether `flat` is made of the copies of this descriptor, constraint by constraint.
    pub fn matches_flat_constraint_system(&self, flat: &ConstraintSystem) -> (r: bool)
        requires
            self.log_instances < 64,
            is_base(self.base),
        ensures
            r == self.is_flat(*flat),
    {
        if !self.matches_flat_shape(flat) {
            return false;
        }
        let n_and: usize = self.base.and_constraints.len();
        let n_mul: usize = self.base.mul_constraints.len();
        let values: usize = self.base.value_vec_layout.committed_total_len;
        proof {
            lemma_base_positive(n_and as nat);
            lemma_base_positive(n_mul as nat);
        }
        let total_and: usize = flat.and_constraints.len();
        for k in 0..total_and
            invariant
                n_and == self.base.and_constraints@.len(),
                n_and > 0,
                values == self.base.value_vec_layout.committed_total_len,
                total_and == flat.and_constraints@.len(),
                forall|j: int|
                    0 <= j < k ==> is_offset_and(
                        #[trigger] flat.and_constraints@[j],
                        self.base.and_constraints@[j % n_and as int],
                        (j / n_and as int) * values,
                    ),
        {
            let offset: u128 = copy_offset(k / n_and, values);
            if !matches_offset_and(
                &flat.and_constraints[k],
                &self.base.and_constraints[k % n_and],
                offset,
            ) {
                assert(!is_offset_and(
                    flat.and_constraints@[k as int],
                    self.base.and_constraints@[k as int % n_and as int],
                    (k as int / n_and as int) * values,
                ));
                return false;
            }
        }
        let total_mul: usize = flat.mul_constraints.len();
        for k in 0..total_mul
            invariant
                n_mul == self.base.mul_constraints@.len(),
                n_mul > 0,
                values == self.base.value_vec_layout.committed_total_len,
                total_mul == flat.mul_constraints@.len(),
                forall|j: int|
                    0 <= j < k ==> is_offset_mul(
                        #[trigger] flat.mul_constraints@[j],
                        self.base.mul_constraints@[j % n_mul as int],
                        (j / n_mul as int) * values,
                    ),
        {
            let offset: u128 = copy_offset(k / n_mul, values);
            if !matches_offset_mul(
                &flat.mul_constraints[k],
                &self.base.mul_constraints[k % n_mul],
                offset,
            ) {
                assert(!is_offset_mul(
                    flat.mul_constraints@[k as int],
                    self.base.mul_constraints@[k as int % n_mul as int],
                    (k as int / n_mul as int) * values,
                ));
                return false;
            }
        }
        true
    }
}

proof fn lemma_base_positive(n: nat)
    requires
        is_pow2(n),
    ensures
        n > 0,
{
    let k = choose|k: nat| n == pow2(k);
    vstd::arithmetic::power2::lemma_pow2_pos(k);
}

proof fn lemma_instances(k: nat)
    requires
        k < 64,
    ensures
        1u128 << (k as u128) == pow2(k),
        pow2(k) <= 0x8000_0000_0000_0000,
{
    lemma2_to64();
    crate::math::subspace::lemma_pow2_shift(k);
    if k < 63 {
        vstd::arithmetic::power2::lemma_pow2_strictly_increases(k, 63);
    }
    vstd::arithmetic::power2::lemma2_to64_rest();
}

/// Whether `total` is `instances` times `base`.
fn is_multiple(total: usize, base: usize, instances: u128) -> (r: bool)
    requires
        instances <= 0x8000_0000_0000_0000,
    ensures
        r == (total == base * instances),
{
    assert(base * instances <= 0xffff_ffff_ffff_ffff * 0x8000_0000_0000_0000) by (nonlinear_arith)
        requires
            base <= 0xffff_ffff_ffff_ffff,
            instances <= 0x8000_0000_0000_0000,
    ;
    total as u128 == (base as u128) * instances
}

/// The distance from the values of the first copy to those of copy `instance`.
fn copy_offset(instance: usize, values: usize) -> (r: u128)
    ensures
        r == instance * values,
{
    assert(instance * values <= 0xffff_ffff_ffff_ffff * 0xffff_ffff_ffff_ffff) by (nonlinear_arith)
        requires
            instance <= 0xffff_ffff_ffff_ffff,
            values <= 0xffff_ffff_ffff_ffff,
    ;
    (instance as u128) * (values as u128)
}

fn matches_offset_operand(flat: &Operand, base: &Operand, offset: u128) -> (r: bool)
    ensures
        r == is_offset_operand(flat@, base@, offset as int),
{
    let n: usize = base.len();
    if flat.len() != n {
        return false;
    }
    if offset > u32::MAX as u128 && n > 0 {
        assert(flat@[0].value_index.0 != base@[0].value_index.0 + offset);
        return false;
    }
    for i in 0..n
        invariant
            n == base@.len(),
            n == flat@.len(),
            offset <= u32::MAX || n == 0,
            forall|k: int|
                0 <= k < i ==> {
                    &&& (#[trigger] flat@[k]).value_index.0 == base@[k].value_index.0 + offset
                    &&& flat@[k].shift_variant == base@[k].shift_variant
                    &&& flat@[k].amount == base@[k].amount
                },
    {
        let same_index: bool = flat[i].value_index.0 as u128 == base[i].value_index.0 as u128
            + offset;
        if !(same_index && flat[i].shift_variant == base[i].shift_variant && flat[i].amount
            == base[i].amount) {
            assert(!is_offset_operand(flat@, base@, offset as int)) by {
                let t = flat@[i as int];
            }
            return false;
        }
    }
    true
}

fn matches_offset_and(flat: &AndConstraint, base: &AndConstraint, offset: u128) -> (r: bool)
    ensures
        r == is_offset_and(*flat, *base, offset as int),
{
    matches_offset_operand(&flat.a, &base.a, offset) && matches_offset_operand(
        &flat.b,
        &base.b,
        offset,
    ) && matches_offset_operand(&flat.c, &base.c, offset)
}

fn matches_offset_mul(flat: &MulConstraint, base: &MulConstraint, offset: u128) -> (r: bool)
    ensures
        r == is_offset_mul(*flat, *base, offset as int),
{
    matches_offset_operand(&flat.a, &base.a, offset) && matches_offset_operand(
        &flat.b,
        &base.b,
        offset,
    ) && matches_offset_operand(&flat.lo, &base.lo, offset) && matches_offset_operand(
        &flat.hi,
        &base.hi,
        offset,
    )
}

/// The SHA-256 digest of a serialized constraint system.
fn digest_constraint_system(serialized: &[u8]) -> (r: [u8; 32])
    ensures
        r@ == sha256_of(serialized@),
{
    sha256(serialized)
}

proof fn lemma_le_bound(bytes: Seq<u8>)
    ensures
        le_value(bytes) < pow2(8 * bytes.len()),
    decreases bytes.len(),
{
    lemma2_to64();
    if bytes.len() > 0 {
        lemma_le_bound(bytes.skip(1));
        lemma_pow2_adds(8, 8 * (bytes.len() - 1) as nat);
        assert(8 + 8 * (bytes.len() - 1) as nat == 8 * bytes.len());
        let p = pow2(8 * (bytes.len() - 1) as nat);
        assert(pow2(8) == 256);
        assert(pow2(8 * bytes.len()) == 256 * p);
    }
}

/// Sixteen bytes encode a 128-bit number.
pub(crate) proof fn lemma_le_fits(bytes: Seq<u8>)
    requires
        bytes.len() <= 16,
    ensures
        le_value(bytes) <= u128::MAX,
{
    lemma_le_bound(bytes);
    lemma2_to64();
    vstd::arithmetic::power2::lemma2_to64_rest();
    lemma_pow2_adds(64, 64);
    if 8 * bytes.len() < 128 {
        vstd::arithmetic::power2::lemma_pow2_strictly_increases(8 * bytes.len(), 128);
    }
}

/// The number that 16 bytes from `start` on encode, the least significant byte first.
fn le_u128(digest: &[u8; 32], start: usize) -> (r: u128)
    requires
        start <= 16,
    ensures
        r == le_value(digest@.subrange(start as int, start + 16)),
{
    let ghost d = digest@.subrange(start as int, start + 16);
    let mut acc: u128 = 0;
    let mut i: usize = 16;
    assert(d.skip(16) =~= Seq::<u8>::empty());
    while i > 0
        invariant
            start <= 16,
            i <= 16,
            d == digest@.subrange(start as int, start + 16),
            acc == le_value(d.skip(i as int)),
        decreases i,
    {
        i = i - 1;
        proof {
            let rest = d.skip(i as int);
            assert(rest.skip(1) =~= d.skip(i + 1));
            assert(rest[0] == digest@[start + i]);
            lemma_le_fits(rest);
        }
        acc = digest[start + i] as u128 + 256 * acc;
    }
    assert(d.skip(0) =~= d);
    acc
}

/// The two halves of a digest as field elements.
pub fn digest_to_b128s(digest: [u8; 32]) -> (r: [B128; 2])
    ensures
        r[0] == BinaryField128bGhash(le_value(digest@.take(16)) as u128),
        r[1] == BinaryField128bGhash(le_value(digest@.skip(16)) as u128),
{
    let lo: u128 = le_u128(&digest, 0);
    let hi: u128 = le_u128(&digest, 16);
    assert(digest@.subrange(0, 16) =~= digest@.take(16));
    assert(digest@.subrange(16, 32) =~= digest@.skip(16));
    [BinaryField128bGhash(lo), BinaryField128bGhash(hi)]
}

} // verus!
