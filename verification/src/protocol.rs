//! The sumcheck protocol, made non-interactive with the Fiat-Shamir
//! transcript: `prove` builds a proof that a polynomial sums to a claimed
//! value over the hypercube, `verify` checks one.

use crate::error::Error;
use crate::field::{fadd, is_canonical, modulus, Fe};
use crate::mlpoly::{
    all_canonical, eval, evens, fold, fold_many, lemma_fold_canonical, lemma_round_sums,
    lemma_sum_fold_congruent, odds, sum, total, MLPoly,
};
use crate::oracle::Oracle;
use crate::transcript::{
    after_challenge, after_field, challenge_value, Transcript, TranscriptState,
};
use crate::types::{round_eval, RoundPoly, Statement, SumcheckProof};
use vstd::arithmetic::div_mod::{
    lemma_add_mod_noop, lemma_mul_mod_noop_left, lemma_small_mod, lemma_sub_mod_noop,
};
use vstd::arithmetic::power2::{lemma2_to64, lemma_pow2_unfold, pow2};
use vstd::prelude::*;

verus! {

/// The bytes `g0`, the label of a round's value at 0.
pub open spec fn label_g0() -> Seq<u8> {
    seq![0x67u8, 0x30u8]
}

/// The bytes `g1`, the label of a round's value at 1.
pub open spec fn label_g1() -> Seq<u8> {
    seq![0x67u8, 0x31u8]
}

/// The byte `r`, the label of a round's challenge.
pub open spec fn label_r() -> Seq<u8> {
    seq![0x72u8]
}

/// The transcript after the two values of a round have been appended.
pub open spec fn after_round_message(t: TranscriptState, g: (int, int)) -> TranscriptState {
    after_field(after_field(t, label_g0(), g.0), label_g1(), g.1)
}

/// The challenge that answers the round polynomial `g`.
pub open spec fn round_challenge(t: TranscriptState, g: (int, int)) -> int {
    challenge_value(after_round_message(t, g), label_r())
}

/// The transcript after a whole round: the two values appended, the
/// challenge drawn.
pub open spec fn after_round(t: TranscriptState, g: (int, int)) -> TranscriptState {
    after_challenge(after_round_message(t, g), label_r())
}

/// The round polynomial of a table: its sums with the first variable fixed
/// to 0 and to 1.
pub open spec fn round_sums(table: Seq<int>) -> (int, int) {
    (total(evens(table)), total(odds(table)))
}

/// Where the prover stands between two rounds.
pub struct ProverView {
    /// The table, with the variables of the rounds done fixed to their
    /// challenges.
    pub table: Seq<int>,
    pub transcript: TranscriptState,
    /// The round polynomials sent so far.
    pub rounds: Seq<(int, int)>,
}

/// Where the prover stands after `k` rounds on the table `evals`, starting
/// from the transcript `t0`.
pub open spec fn prover_after(evals: Seq<int>, t0: TranscriptState, k: nat) -> ProverView
    decreases k,
{
    if k == 0 {
        ProverView { table: evals, transcript: t0, rounds: Seq::empty() }
    } else {
        let prev = prover_after(evals, t0, (k - 1) as nat);
        let g = round_sums(prev.table);
        ProverView {
            table: fold(prev.table, round_challenge(prev.transcript, g)),
            transcript: after_round(prev.transcript, g),
            rounds: prev.rounds.push(g),
        }
    }
}

/// Where the verifier stands between two rounds.
pub struct VerifierView {
    /// What the next round polynomial has to sum to; after the last round,
    /// what the polynomial has to be at `point`.
    pub claim: int,
    pub transcript: TranscriptState,
    /// The challenges drawn so far.
    pub point: Seq<int>,
}

/// Where the verifier stands after `k` rounds of `rounds`, none of which has
/// been refused, starting from the claim `claim` and the transcript `t0`.
pub open spec fn verifier_after(
    claim: int,
    t0: TranscriptState,
    rounds: Seq<(int, int)>,
    k: nat,
) -> VerifierView
    decreases k,
{
    if k == 0 {
        VerifierView { claim, transcript: t0, point: Seq::empty() }
    } else {
        let prev = verifier_after(claim, t0, rounds, (k - 1) as nat);
        let g = rounds[k - 1];
        let r = round_challenge(prev.transcript, g);
        VerifierView {
            claim: round_eval(g.0, g.1, r),
            transcript: after_round(prev.transcript, g),
            point: prev.point.push(r),
        }
    }
}

/// Whether round `k` passes its check: the two values of its polynomial add
/// up to the claim that the rounds before have left.
pub open spec fn round_passes(
    claim: int,
    t0: TranscriptState,
    rounds: Seq<(int, int)>,
    k: nat,
) -> bool {
    fadd(rounds[k as int].0, rounds[k as int].1) == verifier_after(claim, t0, rounds, k).claim
}

/// Whether the first `k` rounds all pass.
pub open spec fn rounds_pass(
    claim: int,
    t0: TranscriptState,
    rounds: Seq<(int, int)>,
    k: nat,
) -> bool {
    forall|j: nat| j < k ==> round_passes(claim, t0, rounds, j)
}

/// Builds the proof that `poly` sums to the statement's claim. Each round
/// sends the two sums of the current table, draws a challenge, and fixes the
/// first variable to it.
///
/// The claim itself is not looked at: a proof for a wrong claim is built as
/// well, and refused by `verify`.
pub fn prove(stmt: &Statement, poly: &MLPoly, transcript: &mut Transcript) -> (proof:
    SumcheckProof)
    requires
        poly.wf(),
        poly.n_vars == stmt.n_vars,
        old(transcript)@.ctr + stmt.n_vars <= u64::MAX,
    ensures
        proof@.len() == stmt.n_vars,
        proof@ == prover_after(poly@, old(transcript)@, stmt.n_vars as nat).rounds,
        final(transcript)@ == prover_after(poly@, old(transcript)@, stmt.n_vars as nat).transcript,
{
    let g0_label: [u8; 2] = [0x67, 0x30];
    let g1_label: [u8; 2] = [0x67, 0x31];
    let r_label: [u8; 1] = [0x72];
    assert(g0_label@ =~= label_g0());
    assert(g1_label@ =~= label_g1());
    assert(r_label@ =~= label_r());
    let ghost t0 = transcript@;
    let mut current_poly = poly.clone();
    let mut round_polys: Vec<RoundPoly> = Vec::with_capacity(stmt.n_vars);
    let mut i: usize = 0;
    assert(current_poly@ =~= poly@);
    assert(round_polys.deep_view() =~= Seq::<(int, int)>::empty());
    while i < stmt.n_vars
        invariant
            i <= stmt.n_vars,
            current_poly.wf(),
            current_poly.n_vars == stmt.n_vars - i,
            transcript@.ctr == t0.ctr + i,
            t0.ctr + stmt.n_vars <= u64::MAX,
            g0_label@ == label_g0(),
            g1_label@ == label_g1(),
            r_label@ == label_r(),
            round_polys@.len() == i,
            current_poly@ == prover_after(poly@, t0, i as nat).table,
            transcript@ == prover_after(poly@, t0, i as nat).transcript,
            round_polys.deep_view() == prover_after(poly@, t0, i as nat).rounds,
        decreases stmt.n_vars - i,
    {
        let ghost before = round_polys.deep_view();
        let (g0, g1) = current_poly.round_sum_g0_g1();
        let round_poly = RoundPoly::new(g0, g1);
        transcript.append_field(g0_label.as_slice(), &g0);
        transcript.append_field(g1_label.as_slice(), &g1);
        round_polys.push(round_poly);
        let r = transcript.challenge_scalar(r_label.as_slice());
        current_poly = current_poly.fold_first_var(r);
        i = i + 1;
        assert(round_polys.deep_view() =~= before.push((g0@, g1@)));
    }
    SumcheckProof { round_polys }
}

/// Runs the rounds of the verifier: checks each round polynomial against the
/// claim that stands, replays it into the transcript, draws the challenge
/// and moves the claim to the polynomial's value there.
///
/// When every round passes, returns the point made of the challenges and the
/// value that the polynomial must have at it. The first round that fails
/// ends the run, with the transcript as the rounds before left it.
pub fn verify_rounds(stmt: &Statement, proof: &SumcheckProof, transcript: &mut Transcript) -> (res:
    Result<(Vec<Fe>, Fe), Error>)
    requires
        proof@.len() == stmt.n_vars ==> old(transcript)@.ctr + stmt.n_vars <= u64::MAX,
    ensures
        match res {
            Ok((point, claim)) => {
                let end = verifier_after(
                    stmt.claim_sum@,
                    old(transcript)@,
                    proof@,
                    stmt.n_vars as nat,
                );
                &&& proof@.len() == stmt.n_vars
                &&& rounds_pass(stmt.claim_sum@, old(transcript)@, proof@, stmt.n_vars as nat)
                &&& point@.len() == stmt.n_vars
                &&& point.deep_view() == end.point
                &&& claim@ == end.claim
                &&& final(transcript)@ == end.transcript
            },
            Err(Error::InvalidProof(reason)) => {
                &&& reason@ == "sum check failed"@
                &&& proof@.len() == stmt.n_vars
                &&& exists|k: nat|
                    {
                        &&& k < stmt.n_vars
                        &&& rounds_pass(stmt.claim_sum@, old(transcript)@, proof@, k)
                        &&& !round_passes(stmt.claim_sum@, old(transcript)@, proof@, k)
                        &&& final(transcript)@ == (#[trigger] verifier_after(
                            stmt.claim_sum@,
                            old(transcript)@,
                            proof@,
                            k,
                        )).transcript
                    }
            },
            Err(Error::DimensionMismatch(reason)) => {
                &&& reason@ == "wrong number of round polynomials"@
                &&& proof@.len() != stmt.n_vars
                &&& final(transcript)@ == old(transcript)@
            },
            Err(Error::TranscriptMismatch(_)) => false,
        },
{
    if proof.num_rounds() != stmt.n_vars {
        return Err(Error::DimensionMismatch("wrong number of round polynomials"));
    }
    let g0_label: [u8; 2] = [0x67, 0x30];
    let g1_label: [u8; 2] = [0x67, 0x31];
    let r_label: [u8; 1] = [0x72];
    assert(g0_label@ =~= label_g0());
    assert(g1_label@ =~= label_g1());
    assert(r_label@ =~= label_r());
    let ghost t0 = transcript@;
    let ghost c0 = stmt.claim_sum@;
    let mut claim = stmt.claim_sum;
    let mut r_vec: Vec<Fe> = Vec::with_capacity(stmt.n_vars);
    let mut i: usize = 0;
    assert(r_vec.deep_view() =~= Seq::<int>::empty());
    while i < stmt.n_vars
        invariant
            i <= stmt.n_vars,
            proof@.len() == stmt.n_vars,
            transcript@.ctr == t0.ctr + i,
            t0.ctr + stmt.n_vars <= u64::MAX,
            g0_label@ == label_g0(),
            g1_label@ == label_g1(),
            r_label@ == label_r(),
            c0 == stmt.claim_sum@,
            t0 == old(transcript)@,
            r_vec@.len() == i,
            rounds_pass(c0, t0, proof@, i as nat),
            claim@ == verifier_after(c0, t0, proof@, i as nat).claim,
            transcript@ == verifier_after(c0, t0, proof@, i as nat).transcript,
            r_vec.deep_view() == verifier_after(c0, t0, proof@, i as nat).point,
        decreases stmt.n_vars - i,
    {
        let ghost before = r_vec.deep_view();
        let round_poly = &proof.round_polys[i];
        let g0 = round_poly.eval_0();
        let g1 = round_poly.eval_1();
        let sum = g0.plus(g1);
        assert(proof@[i as int] == (g0@, g1@));
        if sum != claim {
            proof {
                if sum@ == claim@ {
                    Fe::lemma_view_injective(sum, claim);
                }
                assert(!round_passes(c0, t0, proof@, i as nat));
                assert(transcript@ == verifier_after(c0, t0, proof@, i as nat).transcript);
            }
            return Err(Error::InvalidProof("sum check failed"));
        }
        transcript.append_field(g0_label.as_slice(), &g0);
        transcript.append_field(g1_label.as_slice(), &g1);
        let r = transcript.challenge_scalar(r_label.as_slice());
        r_vec.push(r);
        claim = round_poly.eval(r);
        proof {
            assert(round_passes(c0, t0, proof@, i as nat));
            assert(r_vec.deep_view() =~= before.push(r@));
        }
        i = i + 1;
    }
    Ok((r_vec, claim))
}

/// Checks a proof of the statement. The rounds are those of
/// `verify_rounds`; when they pass, the oracle is asked for the
/// polynomial's value at the point they have led to.
///
/// `Ok(true)` accepts. `Ok(false)` says that every round passed and the
/// oracle's value is not the one the rounds ask for. The errors say that the
/// proof has the wrong number of rounds, or that a round failed.
pub fn verify<O: Oracle>(
    stmt: &Statement,
    proof: &SumcheckProof,
    oracle: &O,
    transcript: &mut Transcript,
) -> (res: Result<bool, Error>)
    requires
        proof@.len() == stmt.n_vars ==> {
            &&& old(transcript)@.ctr + stmt.n_vars <= u64::MAX
            &&& forall|point: Seq<int>| point.len() == stmt.n_vars ==> oracle.accepts(point)
        },
    ensures
        match res {
            Ok(accepted) => {
                let end = verifier_after(
                    stmt.claim_sum@,
                    old(transcript)@,
                    proof@,
                    stmt.n_vars as nat,
                );
                &&& proof@.len() == stmt.n_vars
                &&& rounds_pass(stmt.claim_sum@, old(transcript)@, proof@, stmt.n_vars as nat)
                &&& final(transcript)@ == end.transcript
                &&& exists|value: int|
                    {
                        &&& #[trigger] oracle.answers(end.point, value)
                        &&& accepted == (value == end.claim)
                    }
            },
            Err(Error::InvalidProof(reason)) => {
                &&& reason@ == "sum check failed"@
                &&& proof@.len() == stmt.n_vars
                &&& exists|k: nat|
                    {
                        &&& k < stmt.n_vars
                        &&& rounds_pass(stmt.claim_sum@, old(transcript)@, proof@, k)
                        &&& !round_passes(stmt.claim_sum@, old(transcript)@, proof@, k)
                        &&& final(transcript)@ == (#[trigger] verifier_after(
                            stmt.claim_sum@,
                            old(transcript)@,
                            proof@,
                            k,
                        )).transcript
                    }
            },
            Err(Error::DimensionMismatch(reason)) => {
                &&& reason@ == "wrong number of round polynomials"@
                &&& proof@.len() != stmt.n_vars
                &&& final(transcript)@ == old(transcript)@
            },
            Err(Error::TranscriptMismatch(_)) => false,
        },
{
    match verify_rounds(stmt, proof, transcript) {
        Ok((r_vec, claim)) => {
            let point = r_vec.as_slice();
            assert(point.deep_view() =~= r_vec.deep_view());
            let oracle_eval = oracle.query(point);
            proof {
                if oracle_eval@ == claim@ {
                    Fe::lemma_view_injective(oracle_eval, claim);
                }
            }
            Ok(oracle_eval == claim)
        },
        Err(e) => Err(e),
    }
}

/// A round polynomial made of the two sums of a table takes, at the
/// challenge, the sum of the table folded at the challenge: the claim that
/// a round leaves is the sum that the next round starts from.
pub proof fn lemma_round_eval_is_folded_sum(table: Seq<int>, r: int)
    requires
        table.len() % 2 == 0,
    ensures
        round_eval(round_sums(table).0, round_sums(table).1, r) == total(fold(table, r)),
{
    let p = modulus();
    let e = sum(evens(table));
    let o = sum(odds(table));
    lemma_sum_fold_congruent(table, r);
    lemma_sub_mod_noop(o, e, p);
    lemma_mul_mod_noop_left(o - e, r, p);
    lemma_add_mod_noop(e, (o - e) * r, p);
    assert(e + (o - e) * r == (1 - r) * e + r * o) by (nonlinear_arith);
}

/// After `n` rounds the prover has sent `n` round polynomials, and the one
/// of round `j` is made of the two sums of the table as it stood then.
pub proof fn lemma_prover_rounds(evals: Seq<int>, t0: TranscriptState, n: nat)
    ensures
        prover_after(evals, t0, n).rounds.len() == n,
        forall|j: nat|
            j < n ==> #[trigger] prover_after(evals, t0, n).rounds[j as int] == round_sums(
                prover_after(evals, t0, j).table,
            ),
    decreases n,
{
    if n > 0 {
        lemma_prover_rounds(evals, t0, (n - 1) as nat);
        let prev = prover_after(evals, t0, (n - 1) as nat);
        assert forall|j: nat| j < n implies #[trigger] prover_after(evals, t0, n).rounds[j as int]
            == round_sums(prover_after(evals, t0, j).table) by {
            if j < n - 1 {
                assert(prover_after(evals, t0, n).rounds[j as int] == prev.rounds[j as int]);
            }
        }
    }
}

/// The verifier that is given the honest prover's rounds, and starts from
/// the true sum, keeps step with the prover: after `k` rounds both hold the
/// same transcript, the verifier's claim is the sum of the prover's table,
/// that table is the polynomial's with its first `k` variables fixed to the
/// challenges, and no round has failed.
pub proof fn lemma_honest_run(evals: Seq<int>, t0: TranscriptState, n: nat, k: nat)
    requires
        evals.len() == pow2(n),
        k <= n,
    ensures
        ({
            let rounds = prover_after(evals, t0, n).rounds;
            let v = verifier_after(total(evals), t0, rounds, k);
            let p = prover_after(evals, t0, k);
            &&& v.transcript == p.transcript
            &&& v.claim == total(p.table)
            &&& v.point.len() == k
            &&& p.table == fold_many(evals, v.point)
            &&& p.table.len() == pow2((n - k) as nat)
            &&& rounds_pass(total(evals), t0, rounds, k)
        }),
    decreases k,
{
    let rounds = prover_after(evals, t0, n).rounds;
    let claim = total(evals);
    if k > 0 {
        let j = (k - 1) as nat;
        lemma_honest_run(evals, t0, n, j);
        lemma_prover_rounds(evals, t0, n);
        let v0 = verifier_after(claim, t0, rounds, j);
        let p0 = prover_after(evals, t0, j);
        let g = round_sums(p0.table);
        let r = round_challenge(p0.transcript, g);
        assert(rounds[j as int] == g);
        assert(p0.table.len() % 2 == 0 && p0.table.len() / 2 == pow2((n - k) as nat)) by {
            lemma_pow2_unfold((n - j) as nat);
        }
        lemma_honest_step(p0.table, r);
        let v = verifier_after(claim, t0, rounds, k);
        let p = prover_after(evals, t0, k);
        assert(v.claim == round_eval(g.0, g.1, r));
        assert(v.point == v0.point.push(r));
        assert(p.table == fold(p0.table, r));
        assert(v.point.drop_last() =~= v0.point);
        assert(fold_many(evals, v.point) == fold(fold_many(evals, v.point.drop_last()), r));
        assert(round_passes(claim, t0, rounds, j));
        assert forall|i: nat| i < k implies round_passes(claim, t0, rounds, i) by {
            if i < j {
                assert(rounds_pass(claim, t0, rounds, j));
            }
        }
    }
}

/// One round of an honest run: the two sums add up to the sum of the table,
/// and the round polynomial takes at the challenge the sum of the folded
/// table.
pub proof fn lemma_honest_step(table: Seq<int>, r: int)
    requires
        table.len() % 2 == 0,
    ensures
        fadd(round_sums(table).0, round_sums(table).1) == total(table),
        round_eval(round_sums(table).0, round_sums(table).1, r) == total(fold(table, r)),
        fold(table, r).len() == table.len() / 2,
{
    lemma_round_eval_is_folded_sum(table, r);
    lemma_round_sums(table);
}

/// Completeness. The proof that the prover builds for the true sum of a
/// polynomial passes every round of the verifier, leaves the verifier's
/// transcript where the prover's is, and leads to a point and a claim that
/// the polynomial meets: the oracle that evaluates the polynomial makes
/// `verify` accept.
pub proof fn lemma_honest_proof_accepted(evals: Seq<int>, n: nat, t0: TranscriptState)
    requires
        evals.len() == pow2(n),
        all_canonical(evals),
    ensures
        ({
            let run = prover_after(evals, t0, n);
            let end = verifier_after(total(evals), t0, run.rounds, n);
            &&& run.rounds.len() == n
            &&& rounds_pass(total(evals), t0, run.rounds, n)
            &&& end.transcript == run.transcript
            &&& end.point.len() == n
            &&& end.claim == eval(evals, end.point)
        }),
{
    lemma_honest_run(evals, t0, n, n);
    lemma_prover_rounds(evals, t0, n);
    lemma2_to64();
    let table = prover_after(evals, t0, n).table;
    assert(table.len() == 1);
    assert(all_canonical(table)) by {
        if n > 0 {
            let prev = prover_after(evals, t0, (n - 1) as nat);
            lemma_fold_canonical(prev.table, round_challenge(prev.transcript, round_sums(prev.table)));
        }
    }
    assert(sum(table) == table[0]) by {
        assert(table.drop_last() =~= Seq::<int>::empty());
        assert(sum(table) == sum(table.drop_last()) + table.last());
    }
    assert(total(table) == table[0]) by {
        assert(is_canonical(table[0]));
        lemma_small_mod(table[0] as nat, modulus() as nat);
    }
}

/// A claim that is not the polynomial's sum is caught in the first round:
/// the two values that the prover sends add up to the true sum.
pub proof fn lemma_wrong_claim_fails_first_round(
    evals: Seq<int>,
    n: nat,
    t0: TranscriptState,
    claim: int,
)
    requires
        evals.len() == pow2(n),
        n >= 1,
        claim != total(evals),
    ensures
        !round_passes(claim, t0, prover_after(evals, t0, n).rounds, 0),
{
    lemma_prover_rounds(evals, t0, n);
    lemma_pow2_unfold(n);
    lemma_round_sums(evals);
    assert(prover_after(evals, t0, n).rounds[0] == round_sums(prover_after(evals, t0, 0).table));
}

/// The prover is deterministic: the same table, the same number of rounds
/// and the same transcript give the same proof and leave the same
/// transcript.
pub proof fn lemma_prove_deterministic(
    evals1: Seq<int>,
    t1: TranscriptState,
    evals2: Seq<int>,
    t2: TranscriptState,
    n: nat,
)
    requires
        evals1 == evals2,
        t1 == t2,
    ensures
        prover_after(evals1, t1, n).rounds == prover_after(evals2, t2, n).rounds,
        prover_after(evals1, t1, n).transcript == prover_after(evals2, t2, n).transcript,
{
}

} // verus!
