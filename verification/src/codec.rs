//! The byte encodings of proofs and of polynomials.
//!
//! A field element is its canonical representative in 32 little-endian
//! bytes. A proof is the number of its rounds as eight little-endian bytes,
//! then the rounds in order, each as its value at 0 and its value at 1. A
//! polynomial is its number of variables and the number of its entries, each
//! as eight little-endian bytes, then the entries in order.
//!
//! Decoding reads from the front of a byte string and leaves what follows
//! the encoding unread.

use crate::bytes::{
    byte_range, le_bytes, le_nat, lemma_byte_range_32, lemma_byte_range_8, lemma_le_bytes_len,
    lemma_le_nat_of_le_bytes, u64_from_le_bytes, u64_to_le_bytes,
};
use crate::field::{is_canonical, modulus, Fe, FE_BYTES};
use crate::mlpoly::{all_canonical, MLPoly};
use crate::types::{RoundPoly, SumcheckProof};
use vstd::arithmetic::power2::{
    lemma2_to64, lemma2_to64_rest, lemma_pow2_strictly_increases, lemma_pow2_unfold, pow2,
};
use vstd::prelude::*;
use vstd::slice::{slice_subrange, slice_to_vec};

verus! {

/// The encodings of the elements of `xs`, one after the other.
pub open spec fn encode_elements(xs: Seq<int>) -> Seq<u8> {
    Seq::new((32 * xs.len()) as nat, |k: int| le_bytes(xs[k / 32], 32)[k % 32])
}

/// The `i`-th block of 32 bytes of `bytes`.
pub open spec fn chunk(bytes: Seq<u8>, i: int) -> Seq<u8> {
    bytes.subrange(32 * i, 32 * i + 32)
}

/// The `count` field elements encoded at the front of `bytes`, if there are
/// that many blocks and each spells an integer below the field order.
pub open spec fn decode_elements(bytes: Seq<u8>, count: nat) -> Option<Seq<int>> {
    if 32 * count <= bytes.len() && forall|i: int|
        0 <= i < count ==> le_nat(#[trigger] chunk(bytes, i)) < modulus() {
        Some(Seq::new(count, |i: int| le_nat(chunk(bytes, i))))
    } else {
        None
    }
}

/// The values of the round polynomials, in the order in which a proof
/// carries them.
pub open spec fn flatten(rounds: Seq<(int, int)>) -> Seq<int> {
    Seq::new(
        2 * rounds.len(),
        |i: int|
            if i % 2 == 0 {
                rounds[i / 2].0
            } else {
                rounds[i / 2].1
            },
    )
}

/// The round polynomials whose values `xs` carries.
pub open spec fn pair_up(xs: Seq<int>) -> Seq<(int, int)> {
    Seq::new(xs.len() / 2, |i: int| (xs[2 * i], xs[2 * i + 1]))
}

/// Whether both values of every round polynomial are canonical.
pub open spec fn rounds_canonical(rounds: Seq<(int, int)>) -> bool {
    forall|i: int|
        0 <= i < rounds.len() ==> is_canonical((#[trigger] rounds[i]).0) && is_canonical(
            rounds[i].1,
        )
}

/// The encoding of a proof.
pub open spec fn encode_proof(rounds: Seq<(int, int)>) -> Seq<u8> {
    le_bytes(rounds.len() as int, 8) + encode_elements(flatten(rounds))
}

/// The proof encoded at the front of `bytes`, if there is one.
pub open spec fn decode_proof(bytes: Seq<u8>) -> Option<Seq<(int, int)>> {
    if bytes.len() < 8 {
        None
    } else {
        let n = le_nat(bytes.subrange(0, 8));
        match decode_elements(bytes.skip(8), (2 * n) as nat) {
            Some(xs) => Some(pair_up(xs)),
            None => None,
        }
    }
}

/// The encoding of a polynomial in `n_vars` variables with the table
/// `evals`.
pub open spec fn encode_poly(n_vars: nat, evals: Seq<int>) -> Seq<u8> {
    le_bytes(n_vars as int, 8) + le_bytes(evals.len() as int, 8) + encode_elements(evals)
}

/// The polynomial encoded at the front of `bytes`, as its number of
/// variables and its table, if there is one. A table that has not one entry
/// for each point of the hypercube is refused.
pub open spec fn decode_poly(bytes: Seq<u8>) -> Option<(nat, Seq<int>)> {
    if bytes.len() < 16 {
        None
    } else {
        let n_vars = le_nat(bytes.subrange(0, 8)) as nat;
        let len = le_nat(bytes.subrange(8, 16)) as nat;
        if len != pow2(n_vars) {
            None
        } else {
            match decode_elements(bytes.skip(16), len) {
                Some(xs) => Some((n_vars, xs)),
                None => None,
            }
        }
    }
}

/// Encoding one more element appends its 32 bytes.
pub proof fn lemma_encode_push(xs: Seq<int>, x: int)
    ensures
        encode_elements(xs.push(x)) == encode_elements(xs) + le_bytes(x, 32),
{
    lemma_le_bytes_len(x, 32);
    assert(encode_elements(xs.push(x)) =~= encode_elements(xs) + le_bytes(x, 32));
}

/// Block `i` of the encoding of `xs`, whatever follows it, is the encoding
/// of `xs[i]`.
pub proof fn lemma_chunk_of_encoding(xs: Seq<int>, extra: Seq<u8>, i: int)
    requires
        0 <= i < xs.len(),
    ensures
        chunk(encode_elements(xs) + extra, i) == le_bytes(xs[i], 32),
{
    lemma_le_bytes_len(xs[i], 32);
    assert(chunk(encode_elements(xs) + extra, i) =~= le_bytes(xs[i], 32));
}

/// Canonical elements are read back from their encoding, whatever follows
/// it.
pub proof fn lemma_decode_encode_elements(xs: Seq<int>, extra: Seq<u8>)
    requires
        all_canonical(xs),
    ensures
        decode_elements(encode_elements(xs) + extra, xs.len()) == Some(xs),
{
    let bytes = encode_elements(xs) + extra;
    lemma_byte_range_32();
    assert forall|i: int| 0 <= i < xs.len() implies le_nat(#[trigger] chunk(bytes, i)) == xs[i] by {
        lemma_chunk_of_encoding(xs, extra, i);
        assert(is_canonical(xs[i]));
        lemma_le_nat_of_le_bytes(xs[i], 32);
    }
    assert(Seq::new(xs.len(), |i: int| le_nat(chunk(bytes, i))) =~= xs);
}

/// A string that starts with `head` gives `head` back as its front and the
/// rest behind it.
pub proof fn lemma_split_front(head: Seq<u8>, rest: Seq<u8>)
    ensures
        (head + rest).subrange(0, head.len() as int) == head,
        (head + rest).skip(head.len() as int) == rest,
{
    assert((head + rest).subrange(0, head.len() as int) =~= head);
    assert((head + rest).skip(head.len() as int) =~= rest);
}

/// The values of canonical round polynomials are canonical, and pairing
/// them up gives the round polynomials back.
pub proof fn lemma_flatten(rounds: Seq<(int, int)>)
    ensures
        flatten(rounds).len() == 2 * rounds.len(),
        pair_up(flatten(rounds)) == rounds,
        rounds_canonical(rounds) ==> all_canonical(flatten(rounds)),
{
    let xs = flatten(rounds);
    assert(pair_up(xs) =~= rounds);
    if rounds_canonical(rounds) {
        assert forall|i: int| 0 <= i < xs.len() implies is_canonical(#[trigger] xs[i]) by {
            assert(is_canonical(rounds[i / 2].0) && is_canonical(rounds[i / 2].1));
        }
    }
}

/// Round trip of a proof: a proof with canonical values and fewer than 2^64
/// rounds is read back from its encoding, whatever follows it.
pub proof fn lemma_proof_round_trip(rounds: Seq<(int, int)>, extra: Seq<u8>)
    requires
        rounds_canonical(rounds),
        rounds.len() < byte_range(8),
    ensures
        decode_proof(encode_proof(rounds) + extra) == Some(rounds),
{
    let n = rounds.len();
    let xs = flatten(rounds);
    let head = le_bytes(n as int, 8);
    let rest = encode_elements(xs) + extra;
    lemma_le_bytes_len(n as int, 8);
    lemma_le_nat_of_le_bytes(n as int, 8);
    assert(encode_proof(rounds) + extra =~= head + rest);
    lemma_split_front(head, rest);
    lemma_flatten(rounds);
    lemma_decode_encode_elements(xs, extra);
}

/// Round trip of a polynomial: a table with canonical entries, one for each
/// point of the hypercube in fewer than 2^64 variables, is read back from
/// its encoding, whatever follows it.
pub proof fn lemma_poly_round_trip(n_vars: nat, evals: Seq<int>, extra: Seq<u8>)
    requires
        all_canonical(evals),
        evals.len() == pow2(n_vars),
        n_vars < byte_range(8),
        evals.len() < byte_range(8),
    ensures
        decode_poly(encode_poly(n_vars, evals) + extra) == Some((n_vars, evals)),
{
    let head1 = le_bytes(n_vars as int, 8);
    let head2 = le_bytes(evals.len() as int, 8);
    let rest = encode_elements(evals) + extra;
    let bytes = encode_poly(n_vars, evals) + extra;
    lemma_le_bytes_len(n_vars as int, 8);
    lemma_le_bytes_len(evals.len() as int, 8);
    lemma_le_nat_of_le_bytes(n_vars as int, 8);
    lemma_le_nat_of_le_bytes(evals.len() as int, 8);
    assert(bytes =~= head1 + (head2 + rest));
    lemma_split_front(head1, head2 + rest);
    lemma_split_front(head2, rest);
    assert(bytes.subrange(8, 16) =~= bytes.skip(8).subrange(0, 8));
    assert(bytes.skip(16) =~= bytes.skip(8).skip(8));
    lemma_decode_encode_elements(evals, extra);
}

/// Appends the encoding of `x` to `out`.
fn push_element(out: &mut Vec<u8>, x: &Fe)
    ensures
        final(out)@ == old(out)@ + le_bytes(x@, 32),
        is_canonical(x@),
{
    let mut encoded = x.to_bytes();
    out.append(&mut encoded);
}

/// Reads `count` field elements from `bytes`, starting at `start`.
pub fn read_elements(bytes: &[u8], start: usize, count: usize) -> (r: Option<Vec<Fe>>)
    requires
        start <= bytes@.len(),
    ensures
        match r {
            Some(xs) => decode_elements(bytes@.skip(start as int), count as nat) == Some(
                xs.deep_view(),
            ),
            None => decode_elements(bytes@.skip(start as int), count as nat) is None,
        },
{
    let ghost tail = bytes@.skip(start as int);
    let total = bytes.len();
    if count > (total - start) / FE_BYTES {
        return None;
    }
    let mut xs: Vec<Fe> = Vec::with_capacity(count);
    let mut i: usize = 0;
    while i < count
        invariant
            i <= count,
            total == bytes@.len(),
            start <= bytes@.len(),
            32 * count <= bytes@.len() - start,
            tail == bytes@.skip(start as int),
            xs@.len() == i,
            forall|j: int| 0 <= j < i ==> le_nat(#[trigger] chunk(tail, j)) < modulus(),
            forall|j: int| 0 <= j < i ==> (#[trigger] xs@[j])@ == le_nat(chunk(tail, j)),
        decreases count - i,
    {
        let at = start + FE_BYTES * i;
        let block = slice_subrange(bytes, at, at + FE_BYTES);
        assert(block@ =~= chunk(tail, i as int));
        match Fe::from_bytes(block) {
            Some(x) => {
                xs.push(x);
            },
            None => {
                return None;
            },
        }
        i = i + 1;
    }
    assert(xs.deep_view() =~= Seq::new(count as nat, |j: int| le_nat(chunk(tail, j))));
    Some(xs)
}

impl SumcheckProof {
    /// The encoding of the proof, from which `from_bytes` reads the proof
    /// back.
    pub fn to_bytes(&self) -> (r: Vec<u8>)
        ensures
            r@ == encode_proof(self@),
            decode_proof(r@) == Some(self@),
    {
        let n = self.round_polys.len();
        let count = u64_to_le_bytes(n as u64);
        let mut out = slice_to_vec(count.as_slice());
        let mut i: usize = 0;
        let ghost xs = flatten(self@);
        assert(encode_elements(xs.take(0)) =~= Seq::<u8>::empty());
        assert(out@ =~= le_bytes(n as int, 8) + encode_elements(xs.take(0)));
        while i < n
            invariant
                i <= n,
                n == self.round_polys@.len(),
                xs == flatten(self@),
                out@ == le_bytes(n as int, 8) + encode_elements(xs.take(2 * i)),
                rounds_canonical(self@.take(i as int)),
            decreases n - i,
        {
            let round_poly = &self.round_polys[i];
            proof {
                lemma_encode_push(xs.take(2 * i), round_poly.g0@);
                lemma_encode_push(xs.take(2 * i + 1), round_poly.g1@);
                assert(xs.take(2 * i).push(round_poly.g0@) =~= xs.take(2 * i + 1));
                assert(xs.take(2 * i + 1).push(round_poly.g1@) =~= xs.take(2 * (i + 1)));
            }
            push_element(&mut out, &round_poly.g0);
            push_element(&mut out, &round_poly.g1);
            i = i + 1;
        }
        proof {
            assert(xs.take(2 * n) =~= xs);
            assert(self@.take(n as int) =~= self@);
            lemma_byte_range_8();
            lemma_proof_round_trip(self@, Seq::empty());
            assert(out@ + Seq::<u8>::empty() =~= out@);
        }
        out
    }

    /// Reads the proof encoded at the front of `bytes`. `None` when there is
    /// none: the bytes end too early, or a block does not spell a field
    /// element.
    pub fn from_bytes(bytes: &[u8]) -> (r: Option<SumcheckProof>)
        ensures
            match r {
                Some(proof) => decode_proof(bytes@) == Some(proof@),
                None => decode_proof(bytes@) is None,
            },
    {
        if bytes.len() < 8 {
            return None;
        }
        let n = u64_from_le_bytes(slice_subrange(bytes, 0, 8));
        let room = (bytes.len() - 8) / 64;
        if n > room as u64 {
            return None;
        }
        let rounds = n as usize;
        match read_elements(bytes, 8, 2 * rounds) {
            None => None,
            Some(xs) => {
                let mut round_polys: Vec<RoundPoly> = Vec::with_capacity(rounds);
                let mut i: usize = 0;
                while i < rounds
                    invariant
                        i <= rounds,
                        2 * rounds <= usize::MAX,
                        xs@.len() == 2 * rounds,
                        round_polys@.len() == i,
                        forall|j: int|
                            0 <= j < i ==> (#[trigger] round_polys@[j])@ == pair_up(
                                xs.deep_view(),
                            )[j],
                    decreases rounds - i,
                {
                    round_polys.push(RoundPoly::new(xs[2 * i], xs[2 * i + 1]));
                    i = i + 1;
                }
                let proof = SumcheckProof { round_polys };
                assert(proof@ =~= pair_up(xs.deep_view()));
                Some(proof)
            },
        }
    }
}

/// Two to the power `k`, for a `k` whose power fits.
fn pow2_u64(k: u64) -> (r: u64)
    requires
        k < 64,
    ensures
        r == pow2(k as nat),
{
    let mut r: u64 = 1;
    let mut i: u64 = 0;
    proof {
        lemma2_to64_rest();
        lemma2_to64();
    }
    while i < k
        invariant
            i <= k < 64,
            r == pow2(i as nat),
            pow2(63) == 0x8000000000000000,
        decreases k - i,
    {
        proof {
            lemma_pow2_unfold((i + 1) as nat);
            if i + 1 < 63 {
                lemma_pow2_strictly_increases((i + 1) as nat, 63);
            }
        }
        r = r * 2;
        i = i + 1;
    }
    r
}

impl MLPoly {
    /// The encoding of the polynomial, from which `from_bytes` reads a
    /// well-formed polynomial back.
    pub fn to_bytes(&self) -> (r: Vec<u8>)
        ensures
            r@ == encode_poly(self.n_vars as nat, self@),
            self.wf() ==> decode_poly(r@) == Some((self.n_vars as nat, self@)),
    {
        let n = self.evals.len();
        let n_vars = u64_to_le_bytes(self.n_vars as u64);
        let count = u64_to_le_bytes(n as u64);
        let mut out = slice_to_vec(n_vars.as_slice());
        let mut count_bytes = slice_to_vec(count.as_slice());
        out.append(&mut count_bytes);
        let mut i: usize = 0;
        let ghost head = le_bytes(self.n_vars as int, 8) + le_bytes(n as int, 8);
        assert(encode_elements(self@.take(0)) =~= Seq::<u8>::empty());
        assert(out@ =~= head + encode_elements(self@.take(0)));
        while i < n
            invariant
                i <= n,
                n == self.evals@.len(),
                head == le_bytes(self.n_vars as int, 8) + le_bytes(n as int, 8),
                out@ == head + encode_elements(self@.take(i as int)),
                all_canonical(self@.take(i as int)),
            decreases n - i,
        {
            proof {
                lemma_encode_push(self@.take(i as int), self.evals@[i as int]@);
                assert(self@.take(i as int).push(self.evals@[i as int]@) =~= self@.take(i + 1));
            }
            push_element(&mut out, &self.evals[i]);
            i = i + 1;
        }
        proof {
            assert(self@.take(n as int) =~= self@);
            if self.wf() {
                lemma_byte_range_8();
                lemma_poly_round_trip(self.n_vars as nat, self@, Seq::empty());
                assert(out@ + Seq::<u8>::empty() =~= out@);
            }
        }
        out
    }

    /// Reads the polynomial encoded at the front of `bytes`. `None` when
    /// there is none: the bytes end too early, the table has not one entry
    /// for each point of the hypercube, or a block does not spell a field
    /// element.
    pub fn from_bytes(bytes: &[u8]) -> (r: Option<MLPoly>)
        ensures
            match r {
                Some(poly) => poly.wf() && decode_poly(bytes@) == Some(
                    (poly.n_vars as nat, poly@),
                ),
                None => decode_poly(bytes@) is None,
            },
    {
        if bytes.len() < 16 {
            return None;
        }
        let n_vars = u64_from_le_bytes(slice_subrange(bytes, 0, 8));
        let len = u64_from_le_bytes(slice_subrange(bytes, 8, 16));
        proof {
            lemma2_to64_rest();
            if n_vars >= 64 {
                if n_vars > 64 {
                    lemma_pow2_strictly_increases(64, n_vars as nat);
                }
            }
        }
        if n_vars >= 64 {
            return None;
        }
        if len != pow2_u64(n_vars) {
            return None;
        }
        let room = (bytes.len() - 16) / FE_BYTES;
        if len > room as u64 {
            return None;
        }
        match read_elements(bytes, 16, len as usize) {
            None => None,
            Some(evals) => {
                let poly = MLPoly { n_vars: n_vars as usize, evals };
                assert(poly@.len() == len);
                Some(poly)
            },
        }
    }
}

} // verus!
