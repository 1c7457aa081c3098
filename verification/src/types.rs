//! The statement that is proved, the polynomial of one round, and the proof.

use crate::field::{fadd, fmul, fsub, Fe};
use vstd::prelude::*;

verus! {

/// The public claim: the polynomial in `n_vars` variables sums to
/// `claim_sum` over the hypercube.
#[derive(Clone, Copy, Debug)]
pub struct Statement {
    pub n_vars: usize,
    pub claim_sum: Fe,
}

/// The value at `x` of the line through `(0, g0)` and `(1, g1)`, in the form
/// `g0 + (g1 - g0) * x`.
pub open spec fn round_eval(g0: int, g1: int, x: int) -> int {
    fadd(g0, fmul(fsub(g1, g0), x))
}

/// A polynomial of degree one, given by its values at 0 and at 1.
#[derive(Clone, Copy, Debug, PartialEq, Eq)]
pub struct RoundPoly {
    pub g0: Fe,
    pub g1: Fe,
}

impl View for RoundPoly {
    type V = (int, int);

    open spec fn view(&self) -> (int, int) {
        (self.g0@, self.g1@)
    }
}

impl DeepView for RoundPoly {
    type V = (int, int);

    open spec fn deep_view(&self) -> (int, int) {
        self@
    }
}

impl RoundPoly {
    /// The polynomial with value `g0` at 0 and `g1` at 1.
    pub fn new(g0: Fe, g1: Fe) -> (r: RoundPoly)
        ensures
            r.g0 == g0,
            r.g1 == g1,
    {
        RoundPoly { g0, g1 }
    }

    /// The value at 0.
    pub fn eval_0(&self) -> (r: Fe)
        ensures
            r == self.g0,
    {
        self.g0
    }

    /// The value at 1.
    pub fn eval_1(&self) -> (r: Fe)
        ensures
            r == self.g1,
    {
        self.g1
    }

    /// The coefficients `(c0, c1)` with which the polynomial is
    /// `c0 + c1 * x`.
    pub fn coeffs(&self) -> (r: (Fe, Fe))
        ensures
            r.0 == self.g0,
            r.1@ == fsub(self.g1@, self.g0@),
    {
        (self.g0, self.g1.minus(self.g0))
    }

    /// The value at `x`.
    pub fn eval(&self, x: Fe) -> (r: Fe)
        ensures
            r@ == round_eval(self.g0@, self.g1@, x@),
    {
        self.g0.plus(self.g1.minus(self.g0).times(x))
    }
}

/// A sumcheck proof: the round polynomials, in the order of the rounds.
#[derive(Debug, PartialEq, Eq)]
pub struct SumcheckProof {
    pub round_polys: Vec<RoundPoly>,
}

impl View for SumcheckProof {
    type V = Seq<(int, int)>;

    open spec fn view(&self) -> Seq<(int, int)> {
        self.round_polys.deep_view()
    }
}

impl Clone for SumcheckProof {
    fn clone(&self) -> (r: SumcheckProof)
        ensures
            r.round_polys@ == self.round_polys@,
    {
        SumcheckProof { round_polys: self.round_polys.clone() }
    }
}

impl SumcheckProof {
    /// The number of rounds.
    pub fn num_rounds(&self) -> (r: usize)
        ensures
            r == self@.len(),
    {
        self.round_polys.len()
    }
}

} // verus!
