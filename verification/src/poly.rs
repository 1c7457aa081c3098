//! Round polynomials given by their coefficients.

use crate::field::{fadd, fmul, Fe};
use vstd::prelude::*;

verus! {

/// The value at `x` of the polynomial `c0 + c1 * x`.
pub open spec fn linear_eval(c0: int, c1: int, x: int) -> int {
    fadd(c0, fmul(c1, x))
}

/// A polynomial in one variable, as a round of the protocol sends it.
pub trait RoundPoly {
    /// The coefficients, the constant one first.
    fn coeffs(&self) -> Vec<Fe>;

    /// The value at `x`.
    fn eval(&self, x: Fe) -> Fe;
}

/// The polynomial `c0 + c1 * x`.
#[derive(Clone, Copy, Debug)]
pub struct LinearPoly {
    pub c0: Fe,
    pub c1: Fe,
}

impl RoundPoly for LinearPoly {
    fn coeffs(&self) -> (r: Vec<Fe>)
        ensures
            r@ == seq![self.c0, self.c1],
    {
        let mut r: Vec<Fe> = Vec::with_capacity(2);
        r.push(self.c0);
        r.push(self.c1);
        assert(r@ =~= seq![self.c0, self.c1]);
        r
    }

    fn eval(&self, x: Fe) -> (r: Fe)
        ensures
            r@ == linear_eval(self.c0@, self.c1@, x@),
    {
        self.c0.plus(self.c1.times(x))
    }
}

} // verus!
