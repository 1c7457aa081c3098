//! The oracle that the verifier asks, once, for the polynomial's value at
//! the point to which the rounds have led.

use crate::field::Fe;
use crate::mlpoly::{eval, MLPoly};
use vstd::prelude::*;

verus! {

/// Something that gives the value of a polynomial at a point.
///
/// An oracle says in `accepts` at which points it can be asked, and in
/// `answers` what it promises of its answers. One that says neither can be
/// asked anywhere and promises nothing.
pub trait Oracle {
    /// Whether the oracle can be asked at `point`.
    open spec fn accepts(&self, point: Seq<int>) -> bool {
        true
    }

    /// Whether `value` can be the oracle's answer at `point`.
    open spec fn answers(&self, point: Seq<int>, value: int) -> bool {
        true
    }

    /// The value at `point`.
    fn query(&self, point: &[Fe]) -> (value: Fe)
        requires
            self.accepts(point.deep_view()),
        ensures
            self.answers(point.deep_view(), value@),
    ;
}

/// The oracle that holds the polynomial itself and evaluates it.
#[derive(Debug)]
pub struct PolyOracle {
    poly: MLPoly,
}

impl Clone for PolyOracle {
    fn clone(&self) -> (r: PolyOracle)
        ensures
            r.table() == self.table(),
            r.poly_vars() == self.poly_vars(),
    {
        proof {
            use_type_invariant(self);
        }
        let poly = self.poly.clone();
        assert(poly@ =~= self.poly@);
        PolyOracle { poly }
    }
}

impl PolyOracle {
    #[verifier::type_invariant]
    spec fn well_formed(self) -> bool {
        self.poly.wf()
    }

    /// The table of the polynomial held.
    pub closed spec fn table(self) -> Seq<int> {
        self.poly@
    }

    /// The number of variables of the polynomial held.
    pub closed spec fn poly_vars(self) -> nat {
        self.poly.n_vars as nat
    }

    /// The oracle for `poly`.
    pub fn new(poly: MLPoly) -> (r: PolyOracle)
        requires
            poly.wf(),
        ensures
            r.table() == poly@,
            r.poly_vars() == poly.n_vars,
    {
        PolyOracle { poly }
    }
}

impl Oracle for PolyOracle {
    open spec fn accepts(&self, point: Seq<int>) -> bool {
        point.len() == self.poly_vars()
    }

    open spec fn answers(&self, point: Seq<int>, value: int) -> bool {
        value == eval(self.table(), point)
    }

    fn query(&self, point: &[Fe]) -> (value: Fe) {
        proof {
            use_type_invariant(self);
        }
        self.poly.eval_at(point)
    }
}

} // verus!
