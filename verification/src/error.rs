//! The ways in which verification fails.

use vstd::prelude::*;

verus! {

/// Why a proof was not accepted. Each kind carries a short reason.
#[derive(Debug, Clone, Copy, PartialEq, Eq)]
pub enum Error {
    /// A round's two values do not add up to the claim of that round.
    InvalidProof(&'static str),
    /// The replayed transcript departs from the expected one.
    TranscriptMismatch(&'static str),
    /// A proof or a point has the wrong number of entries.
    DimensionMismatch(&'static str),
}

} // verus!
