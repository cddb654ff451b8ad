//! The sequence of a proof: what is handed to the transcript and to each reduction, and what is
//! made of what comes back.
use super::iop::{IOPProver, ProverError, ShiftKeySource};
use super::witness::{
    batched_transparent_at, compute_batched_transparent, pack_witness, packed_witness,
};
use crate::constraint_system::ValueVec;
use crate::field::{BinaryField, B128};
use crate::math::lagrange::{lagrange_evals_scalars, lagrange_of};
use crate::math::multilinear::{evaluate_scalars, mle};
use crate::math::subspace::{subspace_points, BinarySubspace};
use crate::math::sums::{inner, inner_product};
use crate::verify::monster::OperatorData;
use crate::verify::repeated::{binding_scalars_of, RepeatedConstraintSystem};
use vstd::arithmetic::power2::{lemma2_to64, lemma_pow2_strictly_increases, pow2};
use vstd::prelude::*;

verus! {

/// The number of coordinates that address a bit inside a field element.
pub const LOG_PACKING: usize = 7;

/// What a proof does next.
#[derive(Debug, Clone, Copy, PartialEq, Eq, Structural)]
pub enum ProveAction {
    /// Observe the elements that bind the descriptor of a repeated circuit.
    BindDescriptor,
    /// Observe the public elements.
    ObservePublic,
    /// Commit the packed witness.
    CommitWitness,
    /// Run the reduction of the MUL constraints.
    ReduceIntMul,
    /// Run the reduction of the AND constraints.
    ReduceBitAnd,
    /// Run the shift reduction on both claims.
    ReduceShift,
    /// Switch rings at the evaluation point.
    SwitchRings,
    /// Sample the coefficient that batches the public check.
    SampleBatchCoefficient,
    /// Prove the batched relation of the committed witness.
    ProveOracleRelation,
    /// Nothing is left to do.
    Finished,
}

/// The stage of a proof: the action that is next.
pub type ProvePhase = ProveAction;

/// Output of the reduction of the MUL constraints: a point, and for each operand the evaluations of
/// its 64 bit columns there.
pub struct IntMulOutput {
    /// The point.
    pub eval_point: Vec<B128>,
    /// Left operands.
    pub a_evals: Vec<B128>,
    /// Right operands.
    pub b_evals: Vec<B128>,
    /// Low words of the products.
    pub c_lo_evals: Vec<B128>,
    /// High words of the products.
    pub c_hi_evals: Vec<B128>,
}

impl IntMulOutput {
    /// Every operand has an evaluation for each bit.
    pub open spec fn wf(self) -> bool {
        &&& self.a_evals@.len() == 64
        &&& self.b_evals@.len() == 64
        &&& self.c_lo_evals@.len() == 64
        &&& self.c_hi_evals@.len() == 64
    }
}

/// Output of the reduction of the AND constraints.
pub struct AndCheckOutput {
    /// Left operand.
    pub a_eval: B128,
    /// Right operand.
    pub b_eval: B128,
    /// Result.
    pub c_eval: B128,
    /// The univariate challenge.
    pub z_challenge: B128,
    /// The multilinear point.
    pub eval_point: Vec<B128>,
}

/// How many coordinates of the zerocheck point of the AND reduction are fixed elements of the small
/// field, and how many are sampled: the fixed ones come first, as far as the rows need them.
pub fn zerocheck_challenge_counts(log_rows: usize, n_small: usize) -> (r: (usize, usize))
    ensures
        r.0 == (if log_rows < n_small {
            log_rows
        } else {
            n_small
        }),
        r.1 == log_rows - r.0,
{
    let fixed: usize = if log_rows < n_small {
        log_rows
    } else {
        n_small
    };
    (fixed, log_rows - fixed)
}

/// The state of a proof.
pub struct ProveRun {
    /// The action that is next.
    pub phase: ProvePhase,
    /// The elements that bind the descriptor of a repeated circuit; none for a flat one.
    pub binding_scalars: Vec<B128>,
    /// The packed witness.
    pub witness_packed: Vec<B128>,
    /// The public part of the packed witness.
    pub public_elems: Vec<B128>,
    /// The number of coordinates that address a public element.
    pub log_public_elems: usize,
    /// The output of the MUL reduction.
    pub intmul_output: Option<IntMulOutput>,
    /// The claim on the AND operands.
    pub bitand_claim: Option<OperatorData<B128, 3>>,
    /// The claim on the MUL operands.
    pub intmul_claim: Option<OperatorData<B128, 4>>,
    /// The point of the shift reduction.
    pub eval_point: Vec<B128>,
    /// The equality indicator of the ring switch.
    pub rs_eq_ind: Vec<B128>,
    /// The claim of the ring switch.
    pub sumcheck_claim: B128,
    /// The transparent polynomial of the batched relation.
    pub batched_transparent: Vec<B128>,
    /// The claim of the batched relation.
    pub batched_claim: B128,
}

/// The coordinates at which the public elements are checked.
pub open spec fn pubcheck_point_of(eval_point: Seq<B128>, log_public_elems: int) -> Seq<B128> {
    eval_point.subrange(7, 7 + log_public_elems)
}

/// The batched claim: the ring switch's, and the public check's times the coefficient.
pub open spec fn batched_claim_of(
    sumcheck_claim: B128,
    public_elems: Seq<B128>,
    eval_point: Seq<B128>,
    log_public_elems: int,
    batch_coeff: B128,
) -> B128 {
    sumcheck_claim.plus(
        batch_coeff.times(mle(public_elems, pubcheck_point_of(eval_point, log_public_elems))),
    )
}

impl ProveRun {
    /// What holds in every stage: from the public elements on, they are the first of the packed
    /// witness.
    pub open spec fn wf(self) -> bool {
        &&& !(self.phase is BindDescriptor) ==> {
            &&& self.public_elems@.len() == pow2(self.log_public_elems as nat)
            &&& self.public_elems@ == self.witness_packed@.take(self.public_elems@.len() as int)
            &&& self.public_elems@.len() <= self.witness_packed@.len()
        }
        &&& self.phase is ReduceBitAnd ==> (self.intmul_output matches Some(o) && o.wf())
        &&& self.phase is ReduceShift ==> self.bitand_claim is Some && self.intmul_claim is Some
        &&& self.phase is SwitchRings || self.phase is SampleBatchCoefficient
            ==> self.eval_point@.len() >= 7 + self.log_public_elems
        &&& self.phase is SampleBatchCoefficient ==> self.rs_eq_ind@.len() >= pow2(
            self.log_public_elems as nat,
        )
    }

    /// What the stages leave as it was.
    pub open spec fn same_witness(self, pre: ProveRun) -> bool {
        &&& self.witness_packed == pre.witness_packed
        &&& self.public_elems == pre.public_elems
        &&& self.log_public_elems == pre.log_public_elems
        &&& self.binding_scalars == pre.binding_scalars
    }

    /// Whether the run has packed the witness and is about to observe the public elements.
    pub open spec fn has_packed(
        self,
        log_public_words: usize,
        log_witness_elems: usize,
        witness: ValueVec,
    ) -> bool {
        &&& self.wf()
        &&& self.phase is ObservePublic
        &&& self.log_public_elems == log_public_words - 1
        &&& self.witness_packed@ == packed_witness(witness.data@, pow2(log_witness_elems as nat))
    }

    /// Whether the sizes fit each other, and the witness is long enough.
    pub open spec fn sizes_fit(
        log_public_words: usize,
        log_witness_elems: usize,
        witness: ValueVec,
    ) -> bool {
        &&& log_witness_elems < 62
        &&& 1 <= log_public_words <= log_witness_elems + 1
        &&& witness.data@.len() >= witness.layout.committed_total_len >= 2 * pow2(
            log_witness_elems as nat,
        )
    }

    /// A run in which nothing is known yet.
    fn empty(phase: ProvePhase) -> (r: Self)
        ensures
            r.phase == phase,
            r.binding_scalars@.len() == 0,
    {
        ProveRun {
            phase,
            binding_scalars: Vec::new(),
            witness_packed: Vec::new(),
            public_elems: Vec::new(),
            log_public_elems: 0,
            intmul_output: None,
            bitand_claim: None,
            intmul_claim: None,
            eval_point: Vec::new(),
            rs_eq_ind: Vec::new(),
            sumcheck_claim: B128::zero(),
            batched_transparent: Vec::new(),
            batched_claim: B128::zero(),
        }
    }

    /// Packs the witness. Fails, and leaves the run as it was, where it does not fit.
    fn pack(
        &mut self,
        log_public_words: usize,
        log_witness_elems: usize,
        witness: &ValueVec,
    ) -> (r: Result<(), ProverError>)
        requires
            Self::sizes_fit(log_public_words, log_witness_elems, *witness),
        ensures
            r is Err <==> witness.layout.committed_total_len > 2 * pow2(log_witness_elems as nat),
            r matches Err(e) ==> e == ProverError::WitnessTooLarge && *final(self) == *old(self),
            r is Ok ==> final(self).has_packed(log_public_words, log_witness_elems, *witness)
                && final(self).binding_scalars == old(self).binding_scalars,
    {
        let witness_packed = match pack_witness(log_witness_elems, witness) {
            Ok(v) => v,
            Err(e) => {
                return Err(e);
            },
        };
        let log_public_elems: usize = log_public_words - 1;
        proof {
            lemma2_to64();
            vstd::arithmetic::power2::lemma2_to64_rest();
            if log_public_elems < log_witness_elems {
                lemma_pow2_strictly_increases(log_public_elems as nat, log_witness_elems as nat);
            }
            lemma_pow2_strictly_increases(log_public_elems as nat, 62);
            vstd::bits::lemma_u64_pow2_no_overflow(log_public_elems as nat);
            vstd::bits::lemma_u64_shl_is_mul(1, log_public_elems as u64);
        }
        let n: usize = (1u64 << (log_public_elems as u64)) as usize;
        let mut public_elems: Vec<B128> = Vec::new();
        for i in 0..n
            invariant
                n <= witness_packed@.len(),
                public_elems@ =~= witness_packed@.take(i as int),
        {
            public_elems.push(witness_packed[i]);
        }
        self.phase = ProveAction::ObservePublic;
        self.witness_packed = witness_packed;
        self.public_elems = public_elems;
        self.log_public_elems = log_public_elems;
        Ok(())
    }

    /// Starts a proof of a flat circuit: packs the witness. Fails where it does not fit.
    pub fn start(log_public_words: usize, log_witness_elems: usize, witness: &ValueVec) -> (r: Result<
        Self,
        ProverError,
    >)
        requires
            Self::sizes_fit(log_public_words, log_witness_elems, *witness),
        ensures
            r is Err <==> witness.layout.committed_total_len > 2 * pow2(log_witness_elems as nat),
            r matches Err(e) ==> e == ProverError::WitnessTooLarge,
            r matches Ok(run) ==> run.has_packed(log_public_words, log_witness_elems, *witness)
                && run.binding_scalars@.len() == 0,
    {
        let mut run = Self::empty(ProveAction::ObservePublic);
        match run.pack(log_public_words, log_witness_elems, witness) {
            Ok(()) => Ok(run),
            Err(e) => Err(e),
        }
    }

    /// Starts a proof of a repeated circuit: its descriptor is bound before anything else.
    pub fn start_repeated(repeated: &RepeatedConstraintSystem) -> (r: Self)
        ensures
            r.wf(),
            r.phase is BindDescriptor,
            r.binding_scalars@ == binding_scalars_of(*repeated),
    {
        let scalars = repeated.binding_scalars();
        let mut binding_scalars: Vec<B128> = Vec::new();
        for i in 0..8
            invariant
                scalars@.len() == 8,
                binding_scalars@ =~= scalars@.take(i as int),
        {
            binding_scalars.push(scalars[i]);
        }
        assert(scalars@.take(8) =~= scalars@);
        let mut run = Self::empty(ProveAction::BindDescriptor);
        run.binding_scalars = binding_scalars;
        run
    }

    /// The descriptor was bound: packs the witness, and the public elements are next. Fails where
    /// the witness does not fit.
    pub fn on_descriptor_bound(
        &mut self,
        log_public_words: usize,
        log_witness_elems: usize,
        witness: &ValueVec,
    ) -> (r: Result<(), ProverError>)
        requires
            old(self).wf(),
            old(self).phase is BindDescriptor,
            Self::sizes_fit(log_public_words, log_witness_elems, *witness),
        ensures
            final(self).wf(),
            r is Err <==> witness.layout.committed_total_len > 2 * pow2(log_witness_elems as nat),
            r matches Err(e) ==> e == ProverError::WitnessTooLarge && *final(self) == *old(self),
            r is Ok ==> final(self).has_packed(log_public_words, log_witness_elems, *witness)
                && final(self).binding_scalars == old(self).binding_scalars,
    {
        self.pack(log_public_words, log_witness_elems, witness)
    }

    /// What the proof does next.
    pub fn next_action(&self) -> (r: ProveAction)
        ensures
            r == self.phase,
    {
        self.phase
    }

    /// The public elements were observed.
    pub fn on_public_observed(&mut self)
        requires
            old(self).wf(),
            old(self).phase is ObservePublic,
        ensures
            final(self).wf(),
            final(self).same_witness(*old(self)),
            final(self).phase is CommitWitness,
    {
        self.phase = ProveAction::CommitWitness;
    }

    /// The witness was committed.
    pub fn on_witness_committed(&mut self)
        requires
            old(self).wf(),
            old(self).phase is CommitWitness,
        ensures
            final(self).wf(),
            final(self).same_witness(*old(self)),
            final(self).phase is ReduceIntMul,
    {
        self.phase = ProveAction::ReduceIntMul;
    }

    /// Takes the output of the MUL reduction.
    pub fn on_intmul(&mut self, output: IntMulOutput)
        requires
            old(self).wf(),
            old(self).phase is ReduceIntMul,
            output.wf(),
        ensures
            final(self).wf(),
            final(self).same_witness(*old(self)),
            final(self).phase is ReduceBitAnd,
            final(self).intmul_output == Some(output),
    {
        self.intmul_output = Some(output);
        self.phase = ProveAction::ReduceBitAnd;
    }

    /// Takes the output of the AND reduction. The MUL claim uses the same univariate challenge: its
    /// bit columns are combined by the Lagrange polynomials of `subspace` there.
    pub fn on_bitand(&mut self, output: AndCheckOutput, subspace: &BinarySubspace<B128>)
        requires
            old(self).wf(),
            old(self).phase is ReduceBitAnd,
            subspace.basis@.len() == 6,
        ensures
            final(self).wf(),
            final(self).same_witness(*old(self)),
            final(self).phase is ReduceShift,
            final(self).bitand_claim matches Some(c) && c.evals@ == seq![
                output.a_eval,
                output.b_eval,
                output.c_eval,
            ] && c.r_zhat_prime == output.z_challenge && c.r_x_prime == output.eval_point,
            final(self).intmul_claim matches Some(c) && old(self).intmul_output matches Some(o)
                && c.evals@ == combined_evals(
                o,
                lagrange_of(subspace_points(subspace.basis@), output.z_challenge),
            ) && c.r_zhat_prime == output.z_challenge && c.r_x_prime@ == o.eval_point@,
    {
        proof {
            lemma2_to64();
        }
        let l_tilde = lagrange_evals_scalars(subspace, output.z_challenge);
        let l = l_tilde.as_slice();
        let (evals, r_x_prime) = match &self.intmul_output {
            Some(o) => {
                let evals = [
                    inner_product(o.a_evals.as_slice(), l),
                    inner_product(o.b_evals.as_slice(), l),
                    inner_product(o.c_lo_evals.as_slice(), l),
                    inner_product(o.c_hi_evals.as_slice(), l),
                ];
                assert(evals@ =~= combined_evals(
                    *o,
                    lagrange_of(subspace_points(subspace.basis@), output.z_challenge),
                ));
                (evals, crate::keccak_check::claims::copy_point(o.eval_point.as_slice()))
            },
            None => ([B128::zero(), B128::zero(), B128::zero(), B128::zero()], Vec::new()),
        };
        self.intmul_claim =
        Some(OperatorData { r_zhat_prime: output.z_challenge, r_x_prime, evals });
        let bitand_evals = [output.a_eval, output.b_eval, output.c_eval];
        assert(bitand_evals@ =~= seq![output.a_eval, output.b_eval, output.c_eval]);
        self.bitand_claim =
        Some(
            OperatorData {
                r_zhat_prime: output.z_challenge,
                r_x_prime: output.eval_point,
                evals: bitand_evals,
            },
        );
        self.phase = ProveAction::ReduceShift;
    }

    /// Takes the point of the shift reduction.
    pub fn on_shift(&mut self, eval_point: Vec<B128>)
        requires
            old(self).wf(),
            old(self).phase is ReduceShift,
            eval_point@.len() >= 7 + old(self).log_public_elems,
        ensures
            final(self).wf(),
            final(self).same_witness(*old(self)),
            final(self).phase is SwitchRings,
            final(self).eval_point == eval_point,
    {
        self.eval_point = eval_point;
        self.phase = ProveAction::SwitchRings;
    }

    /// Takes the output of the ring switch.
    pub fn on_ring_switch(&mut self, rs_eq_ind: Vec<B128>, sumcheck_claim: B128)
        requires
            old(self).wf(),
            old(self).phase is SwitchRings,
            rs_eq_ind@.len() >= pow2(old(self).log_public_elems as nat),
        ensures
            final(self).wf(),
            final(self).same_witness(*old(self)),
            final(self).phase is SampleBatchCoefficient,
            final(self).eval_point == old(self).eval_point,
            final(self).rs_eq_ind == rs_eq_ind,
            final(self).sumcheck_claim == sumcheck_claim,
    {
        self.rs_eq_ind = rs_eq_ind;
        self.sumcheck_claim = sumcheck_claim;
        self.phase = ProveAction::SampleBatchCoefficient;
    }

    /// Takes the coefficient that batches the public check with the ring switch.
    pub fn on_batch_coefficient(&mut self, batch_coeff: B128)
        requires
            old(self).wf(),
            old(self).phase is SampleBatchCoefficient,
        ensures
            final(self).wf(),
            final(self).same_witness(*old(self)),
            final(self).phase is ProveOracleRelation,
            final(self).batched_claim == batched_claim_of(
                old(self).sumcheck_claim,
                old(self).public_elems@,
                old(self).eval_point@,
                old(self).log_public_elems as int,
                batch_coeff,
            ),
            final(self).batched_transparent@ == Seq::new(
                old(self).rs_eq_ind@.len(),
                |i: int|
                    batched_transparent_at(
                        old(self).rs_eq_ind@,
                        pubcheck_point_of(
                            old(self).eval_point@,
                            old(self).log_public_elems as int,
                        ),
                        batch_coeff,
                        i,
                    ),
            ),
    {
        let k: usize = self.log_public_elems;
        let n_coords: usize = self.eval_point.len();
        let mut pubcheck_point: Vec<B128> = Vec::new();
        for i in 0..k
            invariant
                n_coords == self.eval_point@.len(),
                n_coords >= 7 + k,
                pubcheck_point@ =~= self.eval_point@.subrange(7, 7 + i),
        {
            pubcheck_point.push(self.eval_point[LOG_PACKING + i]);
        }
        let point = pubcheck_point.as_slice();
        let pubcheck_claim = evaluate_scalars(self.public_elems.as_slice(), point);
        self.batched_claim = self.sumcheck_claim.add(batch_coeff.mul(pubcheck_claim));
        let mut rs_eq_ind: Vec<B128> = Vec::new();
        std::mem::swap(&mut self.rs_eq_ind, &mut rs_eq_ind);
        self.batched_transparent = compute_batched_transparent(rs_eq_ind, point, batch_coeff);
        self.phase = ProveAction::ProveOracleRelation;
    }

    /// The batched relation was proved.
    pub fn on_relation_proved(&mut self)
        requires
            old(self).wf(),
            old(self).phase is ProveOracleRelation,
        ensures
            final(self).wf(),
            final(self).same_witness(*old(self)),
            final(self).phase is Finished,
    {
        self.phase = ProveAction::Finished;
    }
}

/// The evaluations of the MUL operands: their bit columns combined by the bit weights.
pub open spec fn combined_evals(o: IntMulOutput, l: Seq<B128>) -> Seq<B128> {
    seq![
        inner(o.a_evals@, l),
        inner(o.b_evals@, l),
        inner(o.c_lo_evals@, l),
        inner(o.c_hi_evals@, l),
    ]
}

impl<K> IOPProver<K> {
    /// Begins a proof of the flat circuit. Fails where the prover was set up with the keys of a base
    /// circuit, and else where the witness does not fit.
    pub fn begin_proof(&self, witness: &ValueVec) -> (r: Result<
        (ProveRun, ShiftKeySource<'_, K>),
        ProverError,
    >)
        requires
            ProveRun::sizes_fit(self.log_public_words, self.log_witness_elems, *witness),
        ensures
            r matches Err(ProverError::RepeatedShiftKeys) <==> self.shift_keys is Repeated,
            r matches Err(ProverError::WitnessTooLarge) <==> self.shift_keys is Flat
                && witness.layout.committed_total_len > 2 * pow2(self.log_witness_elems as nat),
            r is Ok <==> self.shift_keys is Flat && witness.layout.committed_total_len <= 2 * pow2(
                self.log_witness_elems as nat,
            ),
            r matches Ok((run, keys)) ==> {
                &&& run.has_packed(self.log_public_words, self.log_witness_elems, *witness)
                &&& keys matches ShiftKeySource::Flat(k) && *k == self.shift_keys.keys()
            },
    {
        let keys = match self.flat_key_source() {
            Ok(keys) => keys,
            Err(e) => {
                return Err(e);
            },
        };
        match ProveRun::start(self.log_public_words, self.log_witness_elems, witness) {
            Ok(run) => Ok((run, keys)),
            Err(e) => Err(e),
        }
    }

    /// Begins a proof of a repeated circuit. Fails, before anything is observed, where the descriptor
    /// does not have the shape of the circuit, or is bound differently from that of the setup. Else
    /// the first thing that is observed are the elements that bind the descriptor.
    pub fn begin_repeated_proof<'a>(&'a self, repeated: &'a RepeatedConstraintSystem) -> (r: Result<
        (ProveRun, ShiftKeySource<'a, K>),
        ProverError,
    >)
        requires
            repeated.log_instances < 64,
        ensures
            r matches Err(ProverError::RepeatedShapeMismatch) <==> !repeated.flat_shape(
                self.constraint_system,
            ),
            r matches Err(ProverError::RepeatedSetupMismatch) <==> repeated.flat_shape(
                self.constraint_system,
            ) && self.shift_keys is Repeated && binding_scalars_of(
                self.shift_keys->descriptor,
            ) != binding_scalars_of(*repeated),
            r is Ok <==> repeated.flat_shape(self.constraint_system) && (self.shift_keys is Flat
                || binding_scalars_of(self.shift_keys->descriptor) == binding_scalars_of(
                *repeated,
            )),
            r matches Ok((run, keys)) ==> {
                &&& run.wf()
                &&& run.phase is BindDescriptor
                &&& run.binding_scalars@ == binding_scalars_of(*repeated)
                &&& self.shift_keys is Flat ==> (keys matches ShiftKeySource::Flat(k) && *k
                    == self.shift_keys.keys())
                &&& self.shift_keys is Repeated ==> (keys matches ShiftKeySource::Repeated(k, d)
                    && *k == self.shift_keys.keys() && *d == *repeated)
            },
    {
        match self.repeated_key_source(repeated) {
            Ok(keys) => Ok((ProveRun::start_repeated(repeated), keys)),
            Err(e) => Err(e),
        }
    }
}

} // verus!
