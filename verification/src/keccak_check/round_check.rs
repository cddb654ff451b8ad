//! The verifier's side of an evaluation check, round by round.
use super::sumcheck::{coeffs_at, RoundCoeffs};
use crate::field::BinaryField;
use crate::verify::shift_laws::line;
use vstd::prelude::*;

verus! {

/// Whether a round polynomial agrees with the claim at the coordinate `alpha` of its variable.
pub open spec fn round_passes<F: BinaryField>(c: RoundCoeffs<F>, alpha: F, claim: F) -> bool {
    line(coeffs_at(c, F::zero_of()), coeffs_at(c, F::one_of()), alpha) == claim
}

/// The claim before round `i`: the first one, and from the second round on the polynomial of the
/// round before at its challenge.
pub open spec fn claim_before<F: BinaryField>(
    claim: F,
    messages: Seq<RoundCoeffs<F>>,
    challenges: Seq<F>,
    i: int,
) -> F {
    if i <= 0 {
        claim
    } else {
        coeffs_at(messages[i - 1], challenges[i - 1])
    }
}

/// Whether every round polynomial passes, from the highest coordinate of the point down.
pub open spec fn rounds_pass<F: BinaryField>(
    point: Seq<F>,
    claim: F,
    messages: Seq<RoundCoeffs<F>>,
    challenges: Seq<F>,
) -> bool {
    forall|i: int|
        0 <= i < messages.len() ==> round_passes(
            #[trigger] messages[i],
            point[point.len() - 1 - i],
            claim_before(claim, messages, challenges, i),
        )
}

/// A round polynomial that does not agree with its claim.
#[derive(Debug, Clone, Copy, PartialEq, Eq, Structural)]
pub struct ClaimMismatch;

/// An evaluation check under way.
pub struct RoundCheck<F> {
    /// The point of the claim.
    pub point: Vec<F>,
    /// The claim that the next round polynomial is for.
    pub claim: F,
    /// The challenges so far, the one of the highest variable first.
    pub challenges: Vec<F>,
}

impl<F: BinaryField> RoundCheck<F> {
    /// Whether there are no more challenges than coordinates.
    pub open spec fn wf(self) -> bool {
        self.challenges@.len() <= self.point@.len()
    }

    /// The coordinate of the variable that is bound next.
    pub open spec fn alpha(self) -> F {
        self.point@[self.point@.len() - 1 - self.challenges@.len()]
    }

    /// Whether the check has come this far from a first claim by the given messages.
    pub open spec fn has_taken(self, claim: F, messages: Seq<RoundCoeffs<F>>) -> bool {
        &&& self.challenges@.len() == messages.len()
        &&& rounds_pass(self.point@, claim, messages, self.challenges@)
        &&& self.claim == claim_before(claim, messages, self.challenges@, messages.len() as int)
    }

    /// Starts a check.
    pub fn new(point: Vec<F>, claim: F) -> (r: Self)
        ensures
            r.wf(),
            r.point == point,
            r.claim == claim,
            r.challenges@.len() == 0,
            r.has_taken(claim, Seq::empty()),
    {
        RoundCheck { point, claim, challenges: Vec::new() }
    }

    /// The number of rounds that are left.
    pub fn rounds_left(&self) -> (r: usize)
        requires
            self.wf(),
        ensures
            r == self.point@.len() - self.challenges@.len(),
    {
        self.point.len() - self.challenges.len()
    }

    /// Takes a round polynomial and its challenge. Refuses exactly the polynomials that do not agree
    /// with the claim; else the next claim is the polynomial at the challenge.
    pub fn step(&mut self, coeffs: RoundCoeffs<F>, challenge: F) -> (r: Result<(), ClaimMismatch>)
        requires
            old(self).wf(),
            old(self).challenges@.len() < old(self).point@.len(),
        ensures
            final(self).wf(),
            final(self).point == old(self).point,
            r is Err <==> line(
                coeffs_at(coeffs, F::zero_of()),
                coeffs_at(coeffs, F::one_of()),
                old(self).alpha(),
            ) != old(self).claim,
            r is Err ==> *final(self) == *old(self),
            r is Ok ==> {
                &&& final(self).claim == coeffs_at(coeffs, challenge)
                &&& final(self).challenges@ == old(self).challenges@.push(challenge)
                &&& forall|claim: F, messages: Seq<RoundCoeffs<F>>| #[trigger]
                    old(self).has_taken(claim, messages) ==> final(self).has_taken(
                        claim,
                        messages.push(coeffs),
                    )
            },
    {
        let alpha = self.point[self.point.len() - 1 - self.challenges.len()];
        if !coeffs.agrees_with(alpha, self.claim) {
            return Err(ClaimMismatch);
        }
        self.claim = coeffs.evaluate(challenge);
        self.challenges.push(challenge);
        proof {
            assert forall|claim: F, messages: Seq<RoundCoeffs<F>>| #[trigger]
                old(self).has_taken(claim, messages) implies self.has_taken(
                claim,
                messages.push(coeffs),
            ) by {
                let (before, after) = (old(self).challenges@, self.challenges@);
                let all = messages.push(coeffs);
                assert forall|i: int| 0 <= i < all.len() implies round_passes(
                    #[trigger] all[i],
                    self.point@[self.point@.len() - 1 - i],
                    claim_before(claim, all, after, i),
                ) by {
                    assert(claim_before(claim, all, after, i) == claim_before(
                        claim,
                        messages,
                        before,
                        i,
                    ));
                    if i < messages.len() {
                        assert(all[i] == messages[i]);
                    }
                }
            }
        }
        Ok(())
    }

    /// The challenges and the evaluation that is left, once every variable is bound.
    pub fn finish(self) -> (r: (Vec<F>, F))
        requires
            self.challenges@.len() == self.point@.len(),
        ensures
            r.0 == self.challenges,
            r.1 == self.claim,
    {
        (self.challenges, self.claim)
    }
}

} // verus!
