//! Sumcheck over the scalar field of BN254: multilinear polynomials in
//! evaluation form, a Fiat-Shamir transcript, and the prover and verifier
//! that run on them.
//!
//! The field arithmetic is that of `ark-ff` and the hash that of `blake2`;
//! what is proved of the library is stated over the integers that field
//! elements stand for and over the bytes that the hash has absorbed.

pub mod bytes;
pub mod codec;
pub mod error;
pub mod field;
pub mod iop;
pub mod mlpoly;
pub mod oracle;
pub mod poly;
pub mod protocol;
pub mod transcript;
pub mod types;

pub use error::Error;
pub use field::Fe;
pub use mlpoly::MLPoly;
pub use oracle::{Oracle, PolyOracle};
pub use protocol::{prove, verify};
pub use transcript::Transcript;
pub use types::{RoundPoly, Statement, SumcheckProof};
