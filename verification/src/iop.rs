//! The interactive protocol, one message at a time: the state that a prover
//! and a verifier keep between the rounds, and the steps that move it.

use crate::error::Error;
use crate::field::{fadd, Fe};
use crate::mlpoly::{fold, MLPoly};
use crate::oracle::Oracle;
use crate::poly::{linear_eval, LinearPoly};
use crate::types::Statement;
use vstd::arithmetic::power2::{lemma_pow2_pos, lemma_pow2_unfold};
use vstd::prelude::*;

verus! {

/// What a prover of the interactive protocol does.
pub trait SumcheckProverCore {
    /// Whether the prover can send the polynomial of round `round`. A
    /// prover that does not say can send any.
    open spec fn can_send(&self, round: usize) -> bool {
        true
    }

    /// Whether the prover can take the challenges `r_vec` for round `round`.
    /// A prover that does not say can take any.
    open spec fn can_fold(&self, round: usize, r_vec: Seq<Fe>) -> bool {
        true
    }

    /// The number of variables of the polynomial.
    fn n_vars(&self) -> usize;

    /// The polynomial of round `round`.
    fn round_poly_linear(&mut self, round: usize) -> LinearPoly
        requires
            old(self).can_send(round),
    ;

    /// Fixes the first variable left to the challenge of round `round`.
    fn fold_challenge(&mut self, round: usize, r_vec: &[Fe])
        requires
            old(self).can_fold(round, r_vec@),
    ;
}

/// The prover's state: the statement, the number of rounds done, the table
/// with the variables of those rounds fixed, and the challenges.
pub struct SumcheckProver {
    pub stmt: Statement,
    pub round: usize,
    pub poly: MLPoly,
    pub r_vec: Vec<Fe>,
}

impl SumcheckProver {
    /// The prover before the first round.
    pub fn new(stmt: Statement, poly: MLPoly) -> (r: SumcheckProver)
        ensures
            r.stmt == stmt,
            r.round == 0,
            r.poly == poly,
            r.r_vec@ == Seq::<Fe>::empty(),
    {
        SumcheckProver { stmt, round: 0, poly, r_vec: Vec::new() }
    }

    /// The first two entries of the table folded at the challenge recorded
    /// for round `round`. The prover does not change.
    pub fn round_poly_linear(&mut self, round: usize) -> (r: LinearPoly)
        requires
            old(self).poly.wf(),
            old(self).poly.n_vars >= 2,
            round < old(self).r_vec@.len(),
        ensures
            *final(self) == *old(self),
            r.c0@ == fold(old(self).poly@, old(self).r_vec@[round as int]@)[0],
            r.c1@ == fold(old(self).poly@, old(self).r_vec@[round as int]@)[1],
    {
        let poly = self.poly.fold_first_var(self.r_vec[round]);
        proof {
            lemma_pow2_unfold((self.poly.n_vars - 1) as nat);
            lemma_pow2_pos((self.poly.n_vars - 2) as nat);
        }
        LinearPoly { c0: poly.evals[0], c1: poly.evals[1] }
    }

    /// Records the challenge of round `round` in its place, fixes the first
    /// variable of the table to it, and counts the round.
    pub fn fold_challenge(&mut self, round: usize, r_vec: &[Fe])
        requires
            old(self).poly.wf(),
            old(self).poly.n_vars > 0,
            round < old(self).r_vec@.len(),
            round < r_vec@.len(),
            old(self).round < usize::MAX,
        ensures
            final(self).stmt == old(self).stmt,
            final(self).round == old(self).round + 1,
            final(self).r_vec@ == old(self).r_vec@.update(round as int, r_vec@[round as int]),
            final(self).poly.wf(),
            final(self).poly.n_vars == old(self).poly.n_vars - 1,
            final(self).poly@ == fold(old(self).poly@, r_vec@[round as int]@),
    {
        self.r_vec[round] = r_vec[round];
        self.poly = self.poly.fold_first_var(r_vec[round]);
        self.round += 1;
    }
}

impl SumcheckProverCore for SumcheckProver {
    open spec fn can_send(&self, round: usize) -> bool {
        &&& self.poly.wf()
        &&& self.poly.n_vars >= 2
        &&& round < self.r_vec@.len()
    }

    open spec fn can_fold(&self, round: usize, r_vec: Seq<Fe>) -> bool {
        &&& self.poly.wf()
        &&& self.poly.n_vars > 0
        &&& round < self.r_vec@.len()
        &&& round < r_vec.len()
        &&& self.round < usize::MAX
    }

    fn n_vars(&self) -> (r: usize)
        ensures
            r == self.stmt.n_vars,
    {
        self.stmt.n_vars
    }

    fn round_poly_linear(&mut self, round: usize) -> (r: LinearPoly)
        ensures
            *final(self) == *old(self),
            r.c0@ == fold(old(self).poly@, old(self).r_vec@[round as int]@)[0],
            r.c1@ == fold(old(self).poly@, old(self).r_vec@[round as int]@)[1],
    {
        SumcheckProver::round_poly_linear(self, round)
    }

    fn fold_challenge(&mut self, round: usize, r_vec: &[Fe])
        ensures
            final(self).stmt == old(self).stmt,
            final(self).round == old(self).round + 1,
            final(self).r_vec@ == old(self).r_vec@.update(round as int, r_vec@[round as int]),
            final(self).poly.wf(),
            final(self).poly@ == fold(old(self).poly@, r_vec@[round as int]@),
    {
        SumcheckProver::fold_challenge(self, round, r_vec)
    }
}

/// The verifier's state: the statement, the number of rounds done, the claim
/// that stands, and the challenges.
pub struct VerifierState {
    pub stmt: Statement,
    pub round: usize,
    pub claim: Fe,
    pub r_vec: Vec<Fe>,
}

impl VerifierState {
    /// The verifier before the first round, with the claim to start from.
    pub fn new(stmt: Statement, claim: Fe) -> (r: VerifierState)
        ensures
            r.stmt == stmt,
            r.round == 0,
            r.claim == claim,
            r.r_vec@ == Seq::<Fe>::empty(),
    {
        VerifierState { stmt, round: 0, claim, r_vec: Vec::new() }
    }

    /// The check of a round, alone: the two coefficients of `poly` must add
    /// up to the claim that stands. A caller that draws its challenge from a
    /// source of randomness asks this first, and draws only for a round that
    /// passes.
    pub fn check_claim(&self, poly: &LinearPoly) -> (res: Result<(), Error>)
        ensures
            match res {
                Ok(_) => fadd(poly.c0@, poly.c1@) == self.claim@,
                Err(Error::InvalidProof(reason)) => {
                    &&& reason@ == "claim mismatch"@
                    &&& fadd(poly.c0@, poly.c1@) != self.claim@
                },
                Err(_) => false,
            },
    {
        let g0 = poly.c0;
        let g1 = poly.c1;
        let sum = g0.plus(g1);
        if sum != self.claim {
            proof {
                if sum@ == self.claim@ {
                    Fe::lemma_view_injective(sum, self.claim);
                }
            }
            return Err(Error::InvalidProof("claim mismatch"));
        }
        Ok(())
    }

    /// One round. The two coefficients of `poly` must add up to the claim
    /// that stands, else the round fails and the state stays. Then the claim
    /// moves to the polynomial's value at the challenge `r_i`, which the
    /// caller has drawn, and the challenge is recorded and returned.
    pub fn update_challenge(&mut self, poly: &LinearPoly, r_i: Fe) -> (res: Result<Fe, Error>)
        requires
            old(self).round < usize::MAX,
        ensures
            match res {
                Ok(r) => {
                    &&& fadd(poly.c0@, poly.c1@) == old(self).claim@
                    &&& r == r_i
                    &&& final(self).stmt == old(self).stmt
                    &&& final(self).round == old(self).round + 1
                    &&& final(self).claim@ == linear_eval(poly.c0@, poly.c1@, r_i@)
                    &&& final(self).r_vec@ == old(self).r_vec@.push(r_i)
                },
                Err(Error::InvalidProof(reason)) => {
                    &&& reason@ == "claim mismatch"@
                    &&& fadd(poly.c0@, poly.c1@) != old(self).claim@
                    &&& *final(self) == *old(self)
                },
                Err(_) => false,
            },
    {
        match self.check_claim(poly) {
            Ok(_) => {},
            Err(e) => {
                return Err(e);
            },
        }
        self.claim = poly.c0.plus(poly.c1.times(r_i));
        self.r_vec.push(r_i);
        self.round += 1;
        Ok(r_i)
    }

    /// The last step: asks the oracle for the value at the point made of the
    /// challenges, and says whether it is the claim that stands. Fails when
    /// the challenges are not as many as the statement has variables.
    pub fn finalize_with_oracle<O: Oracle>(&self, oracle: &O) -> (res: Result<bool, Error>)
        requires
            self.r_vec@.len() == self.stmt.n_vars ==> oracle.accepts(self.r_vec.deep_view()),
        ensures
            match res {
                Ok(accepted) => {
                    &&& self.r_vec@.len() == self.stmt.n_vars
                    &&& exists|value: int|
                        {
                            &&& #[trigger] oracle.answers(self.r_vec.deep_view(), value)
                            &&& accepted == (value == self.claim@)
                        }
                },
                Err(Error::DimensionMismatch(reason)) => {
                    &&& reason@ == "r_vec length mismatch"@
                    &&& self.r_vec@.len() != self.stmt.n_vars
                },
                Err(_) => false,
            },
    {
        if self.r_vec.len() != self.stmt.n_vars {
            return Err(Error::DimensionMismatch("r_vec length mismatch"));
        }
        let point = self.r_vec.as_slice();
        assert(point.deep_view() =~= self.r_vec.deep_view());
        let v = oracle.query(point);
        proof {
            if v@ == self.claim@ {
                Fe::lemma_view_injective(v, self.claim);
            }
        }
        Ok(v == self.claim)
    }
}

} // verus!
