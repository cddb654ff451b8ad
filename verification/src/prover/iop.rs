//! The prover's setup: which shift keys it was given, and when they may be used.
use crate::constraint_system::ConstraintSystem;
use crate::field::{BinaryField, B128};
use crate::verify::repeated::{binding_scalars_of, is_base, RepeatedConstraintSystem};
use vstd::prelude::*;

verus! {

/// Why a prover refuses its arguments.
#[derive(Debug, Clone, Copy, PartialEq, Eq, Structural)]
pub enum ProverError {
    /// The repeated descriptor does not match the flat constraint system.
    RepeatedSystemMismatch,
    /// The base key collection does not match the base value count.
    BaseKeyCollectionMismatch,
    /// The prover was set up with repeated shift keys.
    RepeatedShiftKeys,
    /// The repeated descriptor does not match the shape of the flat constraint system.
    RepeatedShapeMismatch,
    /// The repeated descriptor differs from that of the setup.
    RepeatedSetupMismatch,
    /// The witness has too many elements for the constraint system.
    WitnessTooLarge,
}

impl ProverError {
    /// The argument at fault.
    pub fn arg(&self) -> (r: &'static str)
        ensures
            r@ == match *self {
                ProverError::RepeatedSystemMismatch => "repeated"@,
                ProverError::BaseKeyCollectionMismatch => "base_key_collection"@,
                ProverError::RepeatedShiftKeys => "prover"@,
                ProverError::RepeatedShapeMismatch => "repeated"@,
                ProverError::RepeatedSetupMismatch => "repeated"@,
                ProverError::WitnessTooLarge => "witness"@,
            },
    {
        match self {
            ProverError::RepeatedSystemMismatch => "repeated",
            ProverError::BaseKeyCollectionMismatch => "base_key_collection",
            ProverError::RepeatedShiftKeys => "prover",
            ProverError::RepeatedShapeMismatch => "repeated",
            ProverError::RepeatedSetupMismatch => "repeated",
            ProverError::WitnessTooLarge => "witness",
        }
    }

    /// What is wrong with it.
    pub fn msg(&self) -> (r: &'static str)
        ensures
            r@ == match *self {
                ProverError::RepeatedSystemMismatch =>
                    "repeated descriptor does not match the flat constraint system"@,
                ProverError::BaseKeyCollectionMismatch =>
                    "base key collection does not match repeated base value count"@,
                ProverError::RepeatedShiftKeys =>
                    "prover was set up with repeated Shift keys; use prove_repeated"@,
                ProverError::RepeatedShapeMismatch =>
                    "repeated descriptor does not match the flat constraint system shape"@,
                ProverError::RepeatedSetupMismatch =>
                    "repeated descriptor differs from prover setup"@,
                ProverError::WitnessTooLarge =>
                    "witness element count is incompatible with the constraint system"@,
            },
    {
        match self {
            ProverError::RepeatedSystemMismatch =>
                "repeated descriptor does not match the flat constraint system",
            ProverError::BaseKeyCollectionMismatch =>
                "base key collection does not match repeated base value count",
            ProverError::RepeatedShiftKeys =>
                "prover was set up with repeated Shift keys; use prove_repeated",
            ProverError::RepeatedShapeMismatch =>
                "repeated descriptor does not match the flat constraint system shape",
            ProverError::RepeatedSetupMismatch => "repeated descriptor differs from prover setup",
            ProverError::WitnessTooLarge =>
                "witness element count is incompatible with the constraint system",
        }
    }
}

/// The shift keys of a prover: of the whole circuit, or of the base circuit of a repeated one.
pub enum ShiftKeyMaterialization<K> {
    /// Keys of the whole circuit.
    Flat(K),
    /// Keys of the base circuit.
    Repeated {
        /// The descriptor of the setup.
        descriptor: RepeatedConstraintSystem,
        /// The keys of the base circuit.
        base_key_collection: K,
    },
}

/// The keys that a shift reduction is run with.
pub enum ShiftKeySource<'a, K> {
    /// Keys of the whole circuit.
    Flat(&'a K),
    /// Keys of the base circuit, to be applied to every copy that the descriptor counts.
    Repeated(&'a K, &'a RepeatedConstraintSystem),
}

/// Prover for a particular constraint system, with keys of type `K`.
pub struct IOPProver<K> {
    /// The constraint system.
    pub constraint_system: ConstraintSystem,
    /// The logarithm of the number of public words.
    pub log_public_words: usize,
    /// The logarithm of the number of witness elements.
    pub log_witness_elems: usize,
    /// The shift keys.
    pub shift_keys: ShiftKeyMaterialization<K>,
}

impl<K> ShiftKeyMaterialization<K> {
    /// The keys.
    pub open spec fn keys(self) -> K {
        match self {
            ShiftKeyMaterialization::Flat(k) => k,
            ShiftKeyMaterialization::Repeated { base_key_collection, .. } => base_key_collection,
        }
    }

    /// Returns the keys.
    pub fn key_collection(&self) -> (r: &K)
        ensures
            *r == self.keys(),
    {
        match self {
            ShiftKeyMaterialization::Flat(k) => k,
            ShiftKeyMaterialization::Repeated { base_key_collection, .. } => base_key_collection,
        }
    }
}

/// Whether two lists of eight elements are equal.
fn same_scalars(a: &[B128; 8], b: &[B128; 8]) -> (r: bool)
    ensures
        r == (a@ == b@),
{
    for i in 0..8
        invariant
            forall|k: int| 0 <= k < i ==> #[trigger] a[k] == b[k],
    {
        if !a[i].equals(b[i]) {
            assert(a@[i as int] != b@[i as int]);
            return false;
        }
    }
    assert(a@ =~= b@);
    true
}

impl<K> IOPProver<K> {
    /// Constructs a prover from a constraint system and the keys of the whole circuit.
    pub fn new(
        constraint_system: ConstraintSystem,
        log_public_words: usize,
        log_witness_elems: usize,
        key_collection: K,
    ) -> (r: Self)
        ensures
            r == (IOPProver {
                constraint_system,
                log_public_words,
                log_witness_elems,
                shift_keys: ShiftKeyMaterialization::Flat(key_collection),
            }),
    {
        IOPProver {
            constraint_system,
            log_public_words,
            log_witness_elems,
            shift_keys: ShiftKeyMaterialization::Flat(key_collection),
        }
    }

    /// Constructs a prover for a flat repeated circuit from the keys of the base circuit alone.
    /// `n_key_ranges` is the number of values that the keys cover.
    pub fn new_repeated(
        constraint_system: ConstraintSystem,
        log_public_words: usize,
        log_witness_elems: usize,
        repeated: RepeatedConstraintSystem,
        base_key_collection: K,
        n_key_ranges: usize,
    ) -> (r: Result<Self, ProverError>)
        requires
            repeated.log_instances < 64,
            is_base(repeated.base),
        ensures
            r matches Err(ProverError::RepeatedSystemMismatch) <==> !repeated.is_flat(
                constraint_system,
            ),
            r matches Err(ProverError::BaseKeyCollectionMismatch) <==> repeated.is_flat(
                constraint_system,
            ) && n_key_ranges != repeated.base.value_vec_layout.committed_total_len,
            r is Ok <==> repeated.is_flat(constraint_system) && n_key_ranges
                == repeated.base.value_vec_layout.committed_total_len,
            r matches Ok(p) ==> p == (IOPProver {
                constraint_system,
                log_public_words,
                log_witness_elems,
                shift_keys: ShiftKeyMaterialization::Repeated {
                    descriptor: repeated,
                    base_key_collection,
                },
            }),
    {
        if !repeated.matches_flat_constraint_system(&constraint_system) {
            return Err(ProverError::RepeatedSystemMismatch);
        }
        if n_key_ranges != repeated.base.value_vec_layout.committed_total_len {
            return Err(ProverError::BaseKeyCollectionMismatch);
        }
        Ok(
            IOPProver {
                constraint_system,
                log_public_words,
                log_witness_elems,
                shift_keys: ShiftKeyMaterialization::Repeated {
                    descriptor: repeated,
                    base_key_collection,
                },
            },
        )
    }

    /// Returns the constraint system.
    pub fn constraint_system(&self) -> (r: &ConstraintSystem)
        ensures
            *r == self.constraint_system,
    {
        &self.constraint_system
    }

    /// Returns the shift keys.
    pub fn key_collection(&self) -> (r: &K)
        ensures
            *r == self.shift_keys.keys(),
    {
        self.shift_keys.key_collection()
    }

    /// The keys for a proof of the flat circuit. Fails where the prover was set up with the keys of
    /// a base circuit.
    pub fn flat_key_source(&self) -> (r: Result<ShiftKeySource<'_, K>, ProverError>)
        ensures
            r matches Ok(ShiftKeySource::Flat(k)) <==> self.shift_keys is Flat,
            r matches Err(ProverError::RepeatedShiftKeys) <==> self.shift_keys is Repeated,
            r matches Ok(ShiftKeySource::Flat(k)) ==> *k == self.shift_keys.keys(),
    {
        match &self.shift_keys {
            ShiftKeyMaterialization::Flat(key_collection) => Ok(
                ShiftKeySource::Flat(key_collection),
            ),
            ShiftKeyMaterialization::Repeated { .. } => Err(ProverError::RepeatedShiftKeys),
        }
    }

    /// The keys for a proof of a repeated circuit, those of a base circuit with the descriptor.
    /// Fails where the descriptor does not have the shape of the circuit, or is bound differently
    /// from that of the setup.
    pub fn repeated_key_source<'a>(&'a self, repeated: &'a RepeatedConstraintSystem) -> (r: Result<
        ShiftKeySource<'a, K>,
        ProverError,
    >)
        requires
            repeated.log_instances < 64,
        ensures
            r matches Err(ProverError::RepeatedShapeMismatch) <==> !repeated.flat_shape(
                self.constraint_system,
            ),
            r matches Err(ProverError::RepeatedSetupMismatch) <==> repeated.flat_shape(
                self.constraint_system,
            ) && self.shift_keys is Repeated && binding_scalars_of(
                self.shift_keys->descriptor,
            ) != binding_scalars_of(*repeated),
            r matches Ok(ShiftKeySource::Flat(k)) <==> repeated.flat_shape(self.constraint_system)
                && self.shift_keys is Flat,
            r matches Ok(ShiftKeySource::Repeated(k, d)) <==> repeated.flat_shape(
                self.constraint_system,
            ) && self.shift_keys is Repeated && binding_scalars_of(
                self.shift_keys->descriptor,
            ) == binding_scalars_of(*repeated),
            r matches Ok(ShiftKeySource::Flat(k)) ==> *k == self.shift_keys.keys(),
            r matches Ok(ShiftKeySource::Repeated(k, d)) ==> *k == self.shift_keys.keys() && *d
                == *repeated,
    {
        if !repeated.matches_flat_shape(&self.constraint_system) {
            return Err(ProverError::RepeatedShapeMismatch);
        }
        match &self.shift_keys {
            ShiftKeyMaterialization::Flat(key_collection) => Ok(
                ShiftKeySource::Flat(key_collection),
            ),
            ShiftKeyMaterialization::Repeated { descriptor, base_key_collection } => {
                let a = descriptor.binding_scalars();
                let b = repeated.binding_scalars();
                if !same_scalars(&a, &b) {
                    return Err(ProverError::RepeatedSetupMismatch);
                }
                Ok(ShiftKeySource::Repeated(base_key_collection, repeated))
            },
        }
    }
}

} // verus!
