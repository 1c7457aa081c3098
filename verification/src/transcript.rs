//! The Fiat-Shamir transcript: a running BLAKE2s-256 hash that absorbs the
//! prover's messages and from which the verifier's challenges are drawn.
//!
//! Everything a transcript does is stated over the bytes it has absorbed and
//! its challenge counter, so that two transcripts with the same history are
//! seen to give the same challenges.

use crate::bytes::{
    byte_range, le_bytes, le_nat, lemma_le_bytes_len, lemma_le_nat_of_le_bytes, u64_to_le_bytes,
};
use crate::field::{modulus, Fe, FE_BYTES};
use blake2::Blake2s256;
use digest::{Digest, FixedOutputReset};
use vstd::prelude::*;

verus! {

/// A running BLAKE2s-256 computation: the hasher of `blake2`, of whose
/// inside nothing is said here. What it has absorbed is `absorbed`.
#[derive(Debug)]
#[verifier::external_body]
pub struct Hasher {
    state: Blake2s256,
}

/// The bytes that a hasher has absorbed since it was created or last reset,
/// in the order in which they came. The digest that the hasher gives
/// depends on nothing else.
pub uninterp spec fn absorbed(h: Hasher) -> Seq<u8>;

/// The BLAKE2s-256 digest of `data`: 32 bytes, which are not spelled out
/// here.
pub uninterp spec fn blake2s256(data: Seq<u8>) -> Seq<u8>;

/// What a transcript is, as far as its behaviour goes: the bytes its hash has
/// absorbed and the number of challenges it has given.
pub struct TranscriptState {
    pub absorbed: Seq<u8>,
    pub ctr: nat,
}

/// The bytes `APPEND_MESSAGE`, which open every appended message.
pub open spec fn append_tag() -> Seq<u8> {
    seq![
        0x41u8, 0x50u8, 0x50u8, 0x45u8, 0x4eu8, 0x44u8, 0x5fu8,
        0x4du8, 0x45u8, 0x53u8, 0x53u8, 0x41u8, 0x47u8, 0x45u8,
    ]
}

/// The bytes `chal`, which open the input of every challenge.
pub open spec fn challenge_tag() -> Seq<u8> {
    seq![0x63u8, 0x68u8, 0x61u8, 0x6cu8]
}

/// The bytes `ratchet`, which open what a challenge leaves in the hash.
pub open spec fn ratchet_tag() -> Seq<u8> {
    seq![0x72u8, 0x61u8, 0x74u8, 0x63u8, 0x68u8, 0x65u8, 0x74u8]
}

/// A byte string behind its length as eight little-endian bytes.
pub open spec fn length_prefixed(s: Seq<u8>) -> Seq<u8> {
    le_bytes(s.len() as int, 8) + s
}

/// A fresh transcript for `domain`: the label, then its length-prefixed copy.
pub open spec fn initial_state(domain: Seq<u8>) -> TranscriptState {
    TranscriptState { absorbed: domain + length_prefixed(domain), ctr: 0 }
}

/// What one appended message adds to the hash: the tag, the
/// length-prefixed label and the length-prefixed message.
pub open spec fn message_frame(label: Seq<u8>, bytes: Seq<u8>) -> Seq<u8> {
    append_tag() + length_prefixed(label) + length_prefixed(bytes)
}

/// The transcript after a message has been appended.
pub open spec fn after_message(st: TranscriptState, label: Seq<u8>, bytes: Seq<u8>)
    -> TranscriptState {
    TranscriptState { absorbed: st.absorbed + message_frame(label, bytes), ctr: st.ctr }
}

/// The transcript after the field element that stands for `x` has been
/// appended in its canonical encoding.
pub open spec fn after_field(st: TranscriptState, label: Seq<u8>, x: int) -> TranscriptState {
    after_message(st, label, le_bytes(x, FE_BYTES as nat))
}

/// The bytes whose digest gives the next challenge: everything absorbed so
/// far, the tag, the length-prefixed label and the counter.
pub open spec fn challenge_input(st: TranscriptState, label: Seq<u8>) -> Seq<u8> {
    st.absorbed + challenge_tag() + length_prefixed(label) + le_bytes(st.ctr as int, 8)
}

/// The digest that gives the next challenge.
pub open spec fn challenge_digest(st: TranscriptState, label: Seq<u8>) -> Seq<u8> {
    blake2s256(challenge_input(st, label))
}

/// The field element that a digest is read as: the little-endian integer,
/// reduced modulo the field order.
pub open spec fn digest_value(digest: Seq<u8>) -> int {
    le_nat(digest) % modulus()
}

/// The transcript after a challenge with the given digest has been drawn:
/// the digest is absorbed behind its tag, and the counter moves on.
pub open spec fn ratcheted(st: TranscriptState, digest: Seq<u8>) -> TranscriptState {
    TranscriptState { absorbed: st.absorbed + ratchet_tag() + digest, ctr: st.ctr + 1 }
}

/// The next challenge under `label`.
pub open spec fn challenge_value(st: TranscriptState, label: Seq<u8>) -> int {
    digest_value(challenge_digest(st, label))
}

/// The transcript after the next challenge under `label` has been drawn.
pub open spec fn after_challenge(st: TranscriptState, label: Seq<u8>) -> TranscriptState {
    ratcheted(st, challenge_digest(st, label))
}

/// The Fiat-Shamir transcript.
#[derive(Debug)]
pub struct Transcript {
    h: Hasher,
    ctr: u64,
}

impl View for Transcript {
    type V = TranscriptState;

    closed spec fn view(&self) -> TranscriptState {
        TranscriptState { absorbed: absorbed(self.h), ctr: self.ctr as nat }
    }
}

impl Clone for Transcript {
    fn clone(&self) -> (r: Transcript)
        ensures
            r@ == self@,
    {
        Transcript { h: hasher_fork(&self.h), ctr: self.ctr }
    }
}

impl Transcript {
    /// A fresh transcript, separated from others by `domain`.
    pub fn new(domain: &[u8]) -> (r: Transcript)
        ensures
            r@ == initial_state(domain@),
    {
        let mut h = hasher_new();
        hasher_update(&mut h, domain);
        let len = u64_to_le_bytes(domain.len() as u64);
        hasher_update(&mut h, len.as_slice());
        hasher_update(&mut h, domain);
        let r = Transcript { h, ctr: 0 };
        assert(r@.absorbed =~= initial_state(domain@).absorbed);
        r
    }

    /// Absorbs a message under a label.
    pub fn append_message(&mut self, label: &[u8], bytes: &[u8])
        ensures
            final(self)@ == after_message(old(self)@, label@, bytes@),
    {
        let tag: [u8; 14] = [
            0x41, 0x50, 0x50, 0x45, 0x4e, 0x44, 0x5f, 0x4d, 0x45, 0x53, 0x53, 0x41, 0x47, 0x45,
        ];
        assert(tag@ =~= append_tag());
        hasher_update(&mut self.h, tag.as_slice());
        let label_len = u64_to_le_bytes(label.len() as u64);
        hasher_update(&mut self.h, label_len.as_slice());
        hasher_update(&mut self.h, label);
        let bytes_len = u64_to_le_bytes(bytes.len() as u64);
        hasher_update(&mut self.h, bytes_len.as_slice());
        hasher_update(&mut self.h, bytes);
        assert(self@.absorbed =~= after_message(old(self)@, label@, bytes@).absorbed);
    }

    /// Absorbs a field element, in its canonical encoding, under a label.
    pub fn append_field(&mut self, label: &[u8], x: &Fe)
        ensures
            final(self)@ == after_field(old(self)@, label@, x@),
    {
        let buf = x.to_bytes();
        self.append_message(label, buf.as_slice());
    }

    /// The digest that gives the next challenge under `label`. It is taken
    /// on a copy of the hash: the transcript itself does not change.
    pub fn next_digest(&self, label: &[u8]) -> (out: [u8; 32])
        ensures
            out@ == challenge_digest(self@, label@),
    {
        let mut fork = hasher_fork(&self.h);
        let tag: [u8; 4] = [0x63, 0x68, 0x61, 0x6c];
        assert(tag@ =~= challenge_tag());
        hasher_update(&mut fork, tag.as_slice());
        let label_len = u64_to_le_bytes(label.len() as u64);
        hasher_update(&mut fork, label_len.as_slice());
        hasher_update(&mut fork, label);
        let ctr = u64_to_le_bytes(self.ctr);
        hasher_update(&mut fork, ctr.as_slice());
        assert(absorbed(fork) =~= challenge_input(self@, label@));
        hasher_finalize_reset(&mut fork)
    }

    /// Binds the transcript to a challenge that it has given: absorbs the
    /// challenge's digest, moves the counter on, and returns the field
    /// element that the digest is read as.
    pub fn ratchet(&mut self, digest: &[u8]) -> (r: Fe)
        requires
            old(self)@.ctr < u64::MAX,
        ensures
            r@ == digest_value(digest@),
            final(self)@ == ratcheted(old(self)@, digest@),
    {
        let tag: [u8; 7] = [0x72, 0x61, 0x74, 0x63, 0x68, 0x65, 0x74];
        assert(tag@ =~= ratchet_tag());
        hasher_update(&mut self.h, tag.as_slice());
        hasher_update(&mut self.h, digest);
        self.ctr = self.ctr + 1;
        Fe::from_le_bytes_mod_order(digest)
    }

    /// Draws the next challenge under `label`, and binds the transcript to
    /// it.
    pub fn challenge_scalar(&mut self, label: &[u8]) -> (r: Fe)
        requires
            old(self)@.ctr < u64::MAX,
        ensures
            r@ == challenge_value(old(self)@, label@),
            final(self)@ == after_challenge(old(self)@, label@),
    {
        let out = self.next_digest(label);
        self.ratchet(out.as_slice())
    }
}

/// Replay. Transcripts with the same history give the same challenge under
/// a label and have the same history afterwards, and the same holds of a
/// message appended to both.
pub proof fn lemma_replay(a: TranscriptState, b: TranscriptState, label: Seq<u8>, bytes: Seq<u8>)
    requires
        a == b,
    ensures
        challenge_value(a, label) == challenge_value(b, label),
        after_challenge(a, label) == after_challenge(b, label),
        after_message(a, label, bytes) == after_message(b, label, bytes),
{
}

/// A length-prefixed string, followed by anything, tells where it ends and
/// what it is: two such strings that agree up to the end of the longer
/// prefix are the same.
pub proof fn lemma_length_prefix_unique(a: Seq<u8>, x: Seq<u8>, b: Seq<u8>, y: Seq<u8>)
    requires
        a.len() < byte_range(8),
        b.len() < byte_range(8),
        length_prefixed(a) + x == length_prefixed(b) + y,
    ensures
        a == b,
        x == y,
{
    let u = length_prefixed(a) + x;
    let v = length_prefixed(b) + y;
    lemma_le_bytes_len(a.len() as int, 8);
    lemma_le_bytes_len(b.len() as int, 8);
    assert(u.subrange(0, 8) =~= le_bytes(a.len() as int, 8));
    assert(v.subrange(0, 8) =~= le_bytes(b.len() as int, 8));
    lemma_le_nat_of_le_bytes(a.len() as int, 8);
    lemma_le_nat_of_le_bytes(b.len() as int, 8);
    assert(a.len() == b.len());
    let end = 8 + a.len() as int;
    assert(u.subrange(8, end) =~= a);
    assert(v.subrange(8, end) =~= b);
    assert(u.subrange(end, u.len() as int) =~= x);
    assert(v.subrange(end, v.len() as int) =~= y);
}

/// The framing of messages is unambiguous: what a message adds to the hash
/// determines its label and its bytes.
pub proof fn lemma_message_frame_injective(
    label1: Seq<u8>,
    bytes1: Seq<u8>,
    label2: Seq<u8>,
    bytes2: Seq<u8>,
)
    requires
        label1.len() < byte_range(8),
        bytes1.len() < byte_range(8),
        label2.len() < byte_range(8),
        bytes2.len() < byte_range(8),
        message_frame(label1, bytes1) == message_frame(label2, bytes2),
    ensures
        label1 == label2,
        bytes1 == bytes2,
{
    let f1 = message_frame(label1, bytes1);
    let f2 = message_frame(label2, bytes2);
    let tail1 = length_prefixed(label1) + length_prefixed(bytes1);
    let tail2 = length_prefixed(label2) + length_prefixed(bytes2);
    assert(f1.subrange(14, f1.len() as int) =~= tail1);
    assert(f2.subrange(14, f2.len() as int) =~= tail2);
    lemma_length_prefix_unique(label1, length_prefixed(bytes1), label2, length_prefixed(bytes2));
    assert(length_prefixed(bytes1) + Seq::<u8>::empty() =~= length_prefixed(bytes1));
    assert(length_prefixed(bytes2) + Seq::<u8>::empty() =~= length_prefixed(bytes2));
    lemma_length_prefix_unique(bytes1, Seq::empty(), bytes2, Seq::empty());
}

/// Transcripts with one history that are fed different messages have
/// different histories afterwards, and their next challenges under any label
/// are the digests of different bytes.
pub proof fn lemma_different_message_different_history(
    st: TranscriptState,
    label1: Seq<u8>,
    bytes1: Seq<u8>,
    label2: Seq<u8>,
    bytes2: Seq<u8>,
    next_label: Seq<u8>,
)
    requires
        label1.len() < byte_range(8),
        bytes1.len() < byte_range(8),
        label2.len() < byte_range(8),
        bytes2.len() < byte_range(8),
        label1 != label2 || bytes1 != bytes2,
    ensures
        after_message(st, label1, bytes1).absorbed != after_message(st, label2, bytes2).absorbed,
        challenge_input(after_message(st, label1, bytes1), next_label) != challenge_input(
            after_message(st, label2, bytes2),
            next_label,
        ),
{
    let a1 = after_message(st, label1, bytes1).absorbed;
    let a2 = after_message(st, label2, bytes2).absorbed;
    if a1 == a2 {
        let n = st.absorbed.len() as int;
        assert(a1.subrange(n, a1.len() as int) =~= message_frame(label1, bytes1));
        assert(a2.subrange(n, a2.len() as int) =~= message_frame(label2, bytes2));
        lemma_message_frame_injective(label1, bytes1, label2, bytes2);
    }
    let c1 = challenge_input(after_message(st, label1, bytes1), next_label);
    let c2 = challenge_input(after_message(st, label2, bytes2), next_label);
    if c1 == c2 {
        let tail = challenge_tag() + length_prefixed(next_label) + le_bytes(st.ctr as int, 8);
        assert(c1 =~= a1 + tail);
        assert(c2 =~= a2 + tail);
        assert(c1.len() == a1.len() + tail.len());
        assert(c2.len() == a2.len() + tail.len());
        assert(c1.subrange(0, a1.len() as int) =~= a1);
        assert(c2.subrange(0, a2.len() as int) =~= a2);
    }
}

/// `digest::Digest::new` for `blake2::Blake2s256`: a hasher that has
/// absorbed nothing.
#[verifier::external_body]
fn hasher_new() -> (h: Hasher)
    ensures
        absorbed(h) == Seq::<u8>::empty(),
{
    Hasher { state: Blake2s256::new() }
}

/// `digest::Digest::update` for `blake2::Blake2s256`: the hasher absorbs
/// `data` behind what it has absorbed before.
#[verifier::external_body]
fn hasher_update(h: &mut Hasher, data: &[u8])
    ensures
        absorbed(*final(h)) == absorbed(*old(h)) + data@,
{
    h.state.update(data);
}

/// `Clone::clone` for `blake2::Blake2s256`: a second hasher that has
/// absorbed what the first has.
#[verifier::external_body]
fn hasher_fork(h: &Hasher) -> (r: Hasher)
    ensures
        absorbed(r) == absorbed(*h),
{
    Hasher { state: h.state.clone() }
}

/// `digest::FixedOutputReset::finalize_fixed_reset` for
/// `blake2::Blake2s256`: the digest of what the hasher has absorbed, which
/// then starts anew.
#[verifier::external_body]
fn hasher_finalize_reset(h: &mut Hasher) -> (out: [u8; 32])
    ensures
        out@ == blake2s256(absorbed(*old(h))),
        absorbed(*final(h)) == Seq::<u8>::empty(),
{
    h.state.finalize_fixed_reset().into()
}

} // verus!
