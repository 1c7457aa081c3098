//! Elements of the scalar field of BN254, held as canonical integers.
//!
//! The arithmetic itself is done by `ark-ff`; what this module proves is
//! stated over the integer that an element stands for.

use crate::bytes::{
    le_bytes, le_nat, lemma_byte_range_32, lemma_le_bytes_of_le_nat, lemma_le_nat_of_le_bytes,
};
use ark_bn254::Fr;
use ark_ff::{BigInt, PrimeField};
use ark_serialize::{CanonicalDeserialize, CanonicalSerialize, SerializationError};
use vstd::arithmetic::div_mod::lemma_fundamental_div_mod_converse;
use vstd::prelude::*;

verus! {

/// The prime order of the field.
pub open spec fn modulus() -> int {
    21888242871839275222246405745257275088548364400416034343698204186575808495617int
}

/// Whether `v` is the canonical representative of its residue class.
pub open spec fn is_canonical(v: int) -> bool {
    0 <= v < modulus()
}

/// Addition in the field.
pub open spec fn fadd(a: int, b: int) -> int {
    (a + b) % modulus()
}

/// Subtraction in the field.
pub open spec fn fsub(a: int, b: int) -> int {
    (a - b) % modulus()
}

/// Multiplication in the field.
pub open spec fn fmul(a: int, b: int) -> int {
    (a * b) % modulus()
}

/// The four 64-bit limbs of the modulus, least significant first.
const MODULUS_LIMB0: u64 = 0x43e1f593f0000001;

const MODULUS_LIMB1: u64 = 0x2833e84879b97091;

const MODULUS_LIMB2: u64 = 0xb85045b68181585d;

const MODULUS_LIMB3: u64 = 0x30644e72e131a029;

/// The integer that four limbs stand for, least significant first.
pub open spec fn limbs_value(l0: u64, l1: u64, l2: u64, l3: u64) -> int {
    l0 + l1 * 0x1_0000_0000_0000_0000int + l2 * 0x1_0000_0000_0000_0000_0000_0000_0000_0000int
        + l3 * 0x1_0000_0000_0000_0000_0000_0000_0000_0000_0000_0000_0000_0000int
}

/// Limbs are the base-2^64 digits of the integer they stand for, so two
/// quadruples that stand for the same integer are the same.
pub proof fn lemma_limbs_unique(a: (u64, u64, u64, u64), b: (u64, u64, u64, u64))
    requires
        limbs_value(a.0, a.1, a.2, a.3) == limbs_value(b.0, b.1, b.2, b.3),
    ensures
        a == b,
{
    let base = 0x1_0000_0000_0000_0000int;
    let a1 = a.1 + a.2 * base + a.3 * 0x1_0000_0000_0000_0000_0000_0000_0000_0000int;
    let b1 = b.1 + b.2 * base + b.3 * 0x1_0000_0000_0000_0000_0000_0000_0000_0000int;
    let a2 = a.2 + a.3 * base;
    let b2 = b.2 + b.3 * base;
    let v = limbs_value(a.0, a.1, a.2, a.3);
    assert(v == a1 * base + a.0);
    assert(v == b1 * base + b.0);
    lemma_fundamental_div_mod_converse(v, base, a1, a.0 as int);
    lemma_fundamental_div_mod_converse(v, base, b1, b.0 as int);
    assert(a1 == a2 * base + a.1);
    assert(b1 == b2 * base + b.1);
    lemma_fundamental_div_mod_converse(a1, base, a2, a.1 as int);
    lemma_fundamental_div_mod_converse(a1, base, b2, b.1 as int);
    lemma_fundamental_div_mod_converse(a2, base, a.3 as int, a.2 as int);
    lemma_fundamental_div_mod_converse(a2, base, b.3 as int, b.2 as int);
}

/// The number of bytes in the encoding of a field element.
pub const FE_BYTES: usize = 32;

/// The error of `ark-serialize`, which is carried through unopened.
#[verifier::external_type_specification]
#[verifier::external_body]
pub struct ExSerializationError(SerializationError);

/// A field element. Its limbs always hold the canonical representative.
#[derive(Clone, Copy, Debug, PartialEq, Eq, Structural)]
pub struct Fe {
    l0: u64,
    l1: u64,
    l2: u64,
    l3: u64,
}

impl View for Fe {
    type V = int;

    closed spec fn view(&self) -> int {
        limbs_value(self.l0, self.l1, self.l2, self.l3)
    }
}

impl DeepView for Fe {
    type V = int;

    open spec fn deep_view(&self) -> int {
        self@
    }
}

impl Fe {
    #[verifier::type_invariant]
    spec fn canonical(self) -> bool {
        is_canonical(self@)
    }

    /// Two elements that stand for the same integer are the same element.
    pub proof fn lemma_view_injective(a: Fe, b: Fe)
        requires
            a@ == b@,
        ensures
            a == b,
    {
        lemma_limbs_unique((a.l0, a.l1, a.l2, a.l3), (b.l0, b.l1, b.l2, b.l3));
    }

    /// The additive identity.
    pub fn zero() -> (r: Fe)
        ensures
            r@ == 0,
    {
        Fe { l0: 0, l1: 0, l2: 0, l3: 0 }
    }

    /// The multiplicative identity.
    pub fn one() -> (r: Fe)
        ensures
            r@ == 1,
    {
        Fe { l0: 1, l1: 0, l2: 0, l3: 0 }
    }

    /// The element that stands for `x`.
    pub fn from_u64(x: u64) -> (r: Fe)
        ensures
            r@ == x,
    {
        Fe { l0: x, l1: 0, l2: 0, l3: 0 }
    }

    /// The element whose canonical representative has the given limbs, least
    /// significant first; `None` when they reach the modulus.
    pub fn from_limbs(limbs: [u64; 4]) -> (r: Option<Fe>)
        ensures
            r is Some <==> limbs_value(limbs[0], limbs[1], limbs[2], limbs[3]) < modulus(),
            r matches Some(x) ==> x@ == limbs_value(limbs[0], limbs[1], limbs[2], limbs[3]),
    {
        let l0: u64 = limbs[0];
        let l1: u64 = limbs[1];
        let l2: u64 = limbs[2];
        let l3: u64 = limbs[3];
        let below = l3 < MODULUS_LIMB3 || (l3 == MODULUS_LIMB3 && (l2 < MODULUS_LIMB2 || (l2
            == MODULUS_LIMB2 && (l1 < MODULUS_LIMB1 || (l1 == MODULUS_LIMB1 && l0
            < MODULUS_LIMB0)))));
        if below {
            Some(Fe { l0, l1, l2, l3 })
        } else {
            None
        }
    }

    /// The limbs of the canonical representative, least significant first.
    pub fn to_limbs(&self) -> (r: [u64; 4])
        ensures
            limbs_value(r[0], r[1], r[2], r[3]) == self@,
            is_canonical(self@),
    {
        proof {
            use_type_invariant(self);
        }
        [self.l0, self.l1, self.l2, self.l3]
    }

    /// The sum of two elements. Like the difference and the product, it
    /// also says of its operands what holds of every element: that they are
    /// canonical.
    pub fn plus(self, rhs: Fe) -> (r: Fe)
        ensures
            r@ == fadd(self@, rhs@),
            is_canonical(self@),
            is_canonical(rhs@),
    {
        proof {
            use_type_invariant(&self);
            use_type_invariant(&rhs);
        }
        ark_add(self, rhs)
    }

    /// The difference of two elements.
    pub fn minus(self, rhs: Fe) -> (r: Fe)
        ensures
            r@ == fsub(self@, rhs@),
            is_canonical(self@),
            is_canonical(rhs@),
    {
        proof {
            use_type_invariant(&self);
            use_type_invariant(&rhs);
        }
        ark_sub(self, rhs)
    }

    /// The product of two elements.
    pub fn times(self, rhs: Fe) -> (r: Fe)
        ensures
            r@ == fmul(self@, rhs@),
            is_canonical(self@),
            is_canonical(rhs@),
    {
        proof {
            use_type_invariant(&self);
            use_type_invariant(&rhs);
        }
        ark_mul(self, rhs)
    }

    /// The element that the little-endian integer `bytes` reduces to.
    pub fn from_le_bytes_mod_order(bytes: &[u8]) -> (r: Fe)
        ensures
            r@ == le_nat(bytes@) % modulus(),
    {
        ark_from_le_bytes_mod_order(bytes)
    }

    /// The canonical encoding: the representative in 32 little-endian bytes,
    /// from which `from_bytes` reads the element back.
    pub fn to_bytes(&self) -> (r: Vec<u8>)
        ensures
            r@ == le_bytes(self@, FE_BYTES as nat),
            is_canonical(self@),
            le_nat(r@) == self@,
    {
        proof {
            use_type_invariant(self);
            lemma_byte_range_32();
            lemma_le_nat_of_le_bytes(self@, 32);
        }
        ark_serialize_compressed(*self)
    }

    /// Reads a canonical encoding. `None` when `bytes` is not 32 bytes long
    /// or spells an integer that is not below the modulus; else the element
    /// of which `bytes` is the encoding.
    pub fn from_bytes(bytes: &[u8]) -> (r: Option<Fe>)
        ensures
            r is Some <==> bytes@.len() == FE_BYTES && le_nat(bytes@) < modulus(),
            r matches Some(x) ==> x@ == le_nat(bytes@) && bytes@ == le_bytes(x@, FE_BYTES as nat),
    {
        if bytes.len() != FE_BYTES {
            return None;
        }
        proof {
            lemma_le_bytes_of_le_nat(bytes@);
        }
        match ark_deserialize_compressed(bytes) {
            Ok(x) => Some(x),
            Err(_) => None,
        }
    }
}

/// Addition of `ark_ff::Fp` (`core::ops::Add`), on the BN254 scalar field.
/// The arguments are converted with `Fp::new` and the result with
/// `PrimeField::into_bigint`; the sum is the canonical representative of
/// the sum of the two integers modulo the field order.
#[verifier::external_body]
fn ark_add(a: Fe, b: Fe) -> (r: Fe)
    ensures
        r@ == fadd(a@, b@),
{
    let x = Fr::new(BigInt::new([a.l0, a.l1, a.l2, a.l3]));
    let y = Fr::new(BigInt::new([b.l0, b.l1, b.l2, b.l3]));
    let z = (x + y).into_bigint().0;
    Fe { l0: z[0], l1: z[1], l2: z[2], l3: z[3] }
}

/// Subtraction of `ark_ff::Fp` (`core::ops::Sub`), on the BN254 scalar
/// field: the canonical representative of the difference of the two integers
/// modulo the field order.
#[verifier::external_body]
fn ark_sub(a: Fe, b: Fe) -> (r: Fe)
    ensures
        r@ == fsub(a@, b@),
{
    let x = Fr::new(BigInt::new([a.l0, a.l1, a.l2, a.l3]));
    let y = Fr::new(BigInt::new([b.l0, b.l1, b.l2, b.l3]));
    let z = (x - y).into_bigint().0;
    Fe { l0: z[0], l1: z[1], l2: z[2], l3: z[3] }
}

/// Multiplication of `ark_ff::Fp` (`core::ops::Mul`), on the BN254 scalar
/// field: the canonical representative of the product of the two integers
/// modulo the field order.
#[verifier::external_body]
fn ark_mul(a: Fe, b: Fe) -> (r: Fe)
    ensures
        r@ == fmul(a@, b@),
{
    let x = Fr::new(BigInt::new([a.l0, a.l1, a.l2, a.l3]));
    let y = Fr::new(BigInt::new([b.l0, b.l1, b.l2, b.l3]));
    let z = (x * y).into_bigint().0;
    Fe { l0: z[0], l1: z[1], l2: z[2], l3: z[3] }
}

/// `ark_ff::PrimeField::from_le_bytes_mod_order`, on the BN254 scalar field:
/// reads `bytes` as a little-endian integer of any length and reduces it
/// modulo the field order.
#[verifier::external_body]
fn ark_from_le_bytes_mod_order(bytes: &[u8]) -> (r: Fe)
    ensures
        r@ == le_nat(bytes@) % modulus(),
{
    let z = Fr::from_le_bytes_mod_order(bytes).into_bigint().0;
    Fe { l0: z[0], l1: z[1], l2: z[2], l3: z[3] }
}

/// `ark_serialize::CanonicalSerialize::serialize_compressed`, on the BN254
/// scalar field, writing into an empty `Vec`: the canonical representative
/// in 32 little-endian bytes. Writing into a `Vec` cannot fail.
#[verifier::external_body]
fn ark_serialize_compressed(x: Fe) -> (r: Vec<u8>)
    ensures
        r@ == le_bytes(x@, FE_BYTES as nat),
{
    let mut out = Vec::new();
    Fr::new(BigInt::new([x.l0, x.l1, x.l2, x.l3])).serialize_compressed(&mut out).expect(
        "writing to a Vec",
    );
    out
}

/// `ark_serialize::CanonicalDeserialize::deserialize_compressed`, on the
/// BN254 scalar field, reading from a slice of exactly 32 bytes: succeeds
/// when the little-endian integer is below the field order, and then gives
/// the element that stands for it.
#[verifier::external_body]
fn ark_deserialize_compressed(bytes: &[u8]) -> (r: Result<Fe, SerializationError>)
    requires
        bytes@.len() == FE_BYTES,
    ensures
        r is Ok <==> le_nat(bytes@) < modulus(),
        r matches Ok(x) ==> x@ == le_nat(bytes@),
{
    match Fr::deserialize_compressed(bytes) {
        Ok(x) => {
            let z = x.into_bigint().0;
            Ok(Fe { l0: z[0], l1: z[1], l2: z[2], l3: z[3] })
        },
        Err(e) => Err(e),
    }
}

} // verus!
