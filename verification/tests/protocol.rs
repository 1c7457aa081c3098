use ark_bn254::Fr;
use ark_ff::PrimeField;
use ark_std::UniformRand;
use sumcheck::error::Error;
use sumcheck::field::Fe;
use sumcheck::mlpoly::MLPoly;
use sumcheck::oracle::{Oracle, PolyOracle};
use sumcheck::protocol::{prove, verify, verify_rounds};
use sumcheck::transcript::Transcript;
use sumcheck::types::{RoundPoly, Statement, SumcheckProof};

fn fe(x: Fr) -> Fe {
    Fe::from_limbs(x.into_bigint().0).expect("canonical limbs")
}

fn small(values: &[u64]) -> Vec<Fe> {
    values.iter().map(|v| Fe::from_u64(*v)).collect()
}

#[test]
fn test_sumcheck_honest_prover() {
    let mut rng = ark_std::test_rng();
    let n_vars = 4;

    // Create random polynomial
    let evals: Vec<Fe> = (0..(1 << n_vars)).map(|_| fe(Fr::rand(&mut rng))).collect();
    let poly = MLPoly { n_vars, evals };

    // Compute true sum
    let claim_sum = poly.sum_all();
    let stmt = Statement { n_vars, claim_sum };

    // Prove
    let mut prover_transcript = Transcript::new(b"sumcheck-test");
    let proof = prove(&stmt, &poly, &mut prover_transcript);

    // Verify
    let oracle = PolyOracle::new(poly);
    let mut verifier_transcript = Transcript::new(b"sumcheck-test");
    let result = verify(&stmt, &proof, &oracle, &mut verifier_transcript);

    assert!(result.unwrap(), "honest proof should verify");
}

#[test]
fn test_sumcheck_wrong_claim_fails() {
    let mut rng = ark_std::test_rng();
    let n_vars = 3;

    let evals: Vec<Fe> = (0..(1 << n_vars)).map(|_| fe(Fr::rand(&mut rng))).collect();
    let poly = MLPoly { n_vars, evals };

    // Wrong claim
    let wrong_claim = poly.sum_all().plus(Fe::from_u64(1));
    let stmt = Statement { n_vars, claim_sum: wrong_claim };

    let mut prover_transcript = Transcript::new(b"sumcheck-test");
    let proof = prove(&stmt, &poly, &mut prover_transcript);

    let oracle = PolyOracle::new(poly);
    let mut verifier_transcript = Transcript::new(b"sumcheck-test");
    let result = verify(&stmt, &proof, &oracle, &mut verifier_transcript);

    assert!(result.is_err(), "wrong claim should fail verification");
}

#[test]
fn test_proof_serialization_roundtrip() {
    let mut rng = ark_std::test_rng();
    let n_vars = 3;

    let evals: Vec<Fe> = (0..(1 << n_vars)).map(|_| fe(Fr::rand(&mut rng))).collect();
    let poly = MLPoly { n_vars, evals };
    let claim_sum = poly.sum_all();
    let stmt = Statement { n_vars, claim_sum };

    // Generate proof
    let mut transcript = Transcript::new(b"sumcheck-test");
    let proof = prove(&stmt, &poly, &mut transcript);

    // Serialize
    let bytes = proof.to_bytes();

    // Deserialize
    let proof2: SumcheckProof = SumcheckProof::from_bytes(&bytes[..]).expect("deserialize");

    // Verify deserialized proof works
    let oracle = PolyOracle::new(poly);
    let mut transcript = Transcript::new(b"sumcheck-test");
    let result = verify(&stmt, &proof2, &oracle, &mut transcript);

    assert!(result.unwrap(), "deserialized proof should verify");

    // Check proof size
    println!("Proof size for {} vars: {} bytes", n_vars, bytes.len());
}

#[test]
fn test_single_variable() {
    let mut rng = ark_std::test_rng();
    let n_vars = 1;

    let evals: Vec<Fe> = (0..(1 << n_vars)).map(|_| fe(Fr::rand(&mut rng))).collect();
    let poly = MLPoly { n_vars, evals };
    let claim_sum = poly.sum_all();
    let stmt = Statement { n_vars, claim_sum };

    let mut prover_transcript = Transcript::new(b"sumcheck-test");
    let proof = prove(&stmt, &poly, &mut prover_transcript);

    let oracle = PolyOracle::new(poly);
    let mut verifier_transcript = Transcript::new(b"sumcheck-test");
    let result = verify(&stmt, &proof, &oracle, &mut verifier_transcript);

    assert!(result.unwrap());
}

#[test]
fn wrong_claim_is_an_invalid_proof() {
    let poly = MLPoly { n_vars: 2, evals: small(&[3, 1, 4, 1]) };
    let stmt = Statement { n_vars: 2, claim_sum: Fe::from_u64(10) };
    let mut t = Transcript::new(b"sumcheck-test");
    let proof = prove(&stmt, &poly, &mut t);
    let oracle = PolyOracle::new(poly);
    let mut t = Transcript::new(b"sumcheck-test");
    let result = verify(&stmt, &proof, &oracle, &mut t);
    assert_eq!(result, Err(Error::InvalidProof("sum check failed")));
}

#[test]
fn failed_round_leaves_the_transcript_untouched() {
    let poly = MLPoly { n_vars: 2, evals: small(&[3, 1, 4, 1]) };
    let stmt = Statement { n_vars: 2, claim_sum: Fe::from_u64(10) };
    let mut t = Transcript::new(b"sumcheck-test");
    let proof = prove(&stmt, &poly, &mut t);
    let mut used = Transcript::new(b"sumcheck-test");
    assert!(verify_rounds(&stmt, &proof, &mut used).is_err());
    let mut fresh = Transcript::new(b"sumcheck-test");
    assert_eq!(used.challenge_scalar(b"x"), fresh.challenge_scalar(b"x"));
}

#[test]
fn single_variable_round_is_the_table() {
    let a = Fe::from_u64(11);
    let b = Fe::from_u64(31);
    let poly = MLPoly { n_vars: 1, evals: vec![a, b] };
    let stmt = Statement { n_vars: 1, claim_sum: Fe::from_u64(42) };
    let mut t = Transcript::new(b"sumcheck-test");
    let proof = prove(&stmt, &poly, &mut t);
    assert_eq!(proof.round_polys, vec![RoundPoly { g0: a, g1: b }]);
    assert_eq!(proof.num_rounds(), 1);
    let oracle = PolyOracle::new(poly);
    let mut t = Transcript::new(b"sumcheck-test");
    assert_eq!(verify(&stmt, &proof, &oracle, &mut t), Ok(true));
}

#[test]
fn wrong_number_of_rounds_is_a_dimension_mismatch() {
    let poly = MLPoly { n_vars: 2, evals: small(&[3, 1, 4, 1]) };
    let stmt = Statement { n_vars: 2, claim_sum: Fe::from_u64(9) };
    let oracle = PolyOracle::new(poly.clone());
    let expected = Err(Error::DimensionMismatch("wrong number of round polynomials"));

    let empty = SumcheckProof { round_polys: vec![] };
    let mut t = Transcript::new(b"sumcheck-test");
    assert_eq!(verify(&stmt, &empty, &oracle, &mut t), expected);

    let mut t = Transcript::new(b"sumcheck-test");
    let mut long = prove(&stmt, &poly, &mut t);
    long.round_polys.push(RoundPoly::new(Fe::zero(), Fe::zero()));
    let mut t = Transcript::new(b"sumcheck-test");
    assert_eq!(verify(&stmt, &long, &oracle, &mut t), expected);

    let mut t = Transcript::new(b"sumcheck-test");
    let mut short = prove(&stmt, &poly, &mut t);
    short.round_polys.pop();
    let mut t = Transcript::new(b"sumcheck-test");
    assert_eq!(verify(&stmt, &short, &oracle, &mut t), expected);
}

#[test]
fn dimension_mismatch_leaves_the_transcript_untouched() {
    let stmt = Statement { n_vars: 2, claim_sum: Fe::from_u64(9) };
    let empty = SumcheckProof { round_polys: vec![] };
    let mut used = Transcript::new(b"sumcheck-test");
    assert!(verify_rounds(&stmt, &empty, &mut used).is_err());
    let mut fresh = Transcript::new(b"sumcheck-test");
    assert_eq!(used.challenge_scalar(b"x"), fresh.challenge_scalar(b"x"));
}

#[test]
fn prove_is_deterministic() {
    let mut rng = ark_std::test_rng();
    let evals: Vec<Fe> = (0..16).map(|_| fe(Fr::rand(&mut rng))).collect();
    let poly = MLPoly { n_vars: 4, evals };
    let stmt = Statement { n_vars: 4, claim_sum: poly.sum_all() };
    let mut t1 = Transcript::new(b"sumcheck-test");
    let mut t2 = Transcript::new(b"sumcheck-test");
    let p1 = prove(&stmt, &poly, &mut t1);
    let p2 = prove(&stmt, &poly, &mut t2);
    assert_eq!(p1, p2);
    assert_eq!(p1.to_bytes(), p2.to_bytes());
    assert_eq!(t1.challenge_scalar(b"next"), t2.challenge_scalar(b"next"));
}

#[test]
fn another_domain_gives_another_proof() {
    let poly = MLPoly { n_vars: 2, evals: small(&[3, 1, 4, 1]) };
    let stmt = Statement { n_vars: 2, claim_sum: Fe::from_u64(9) };
    let mut t1 = Transcript::new(b"sumcheck-test");
    let mut t2 = Transcript::new(b"sumcheck-tesu");
    let p1 = prove(&stmt, &poly, &mut t1);
    let p2 = prove(&stmt, &poly, &mut t2);
    assert_eq!(p1.round_polys[0], p2.round_polys[0]);
    assert_ne!(p1.round_polys[1], p2.round_polys[1]);
    let oracle = PolyOracle::new(poly);
    let mut t = Transcript::new(b"sumcheck-test");
    assert!(matches!(
        verify(&stmt, &p2, &oracle, &mut t),
        Err(Error::InvalidProof(_))
    ));
}

#[test]
fn rounds_follow_the_transcript() {
    let poly = MLPoly { n_vars: 2, evals: small(&[3, 1, 4, 1]) };
    let stmt = Statement { n_vars: 2, claim_sum: Fe::from_u64(9) };
    let mut t = Transcript::new(b"sumcheck-test");
    let proof = prove(&stmt, &poly, &mut t);

    // Round 0: the sums of the even and of the odd entries.
    assert_eq!(proof.round_polys[0], RoundPoly::new(Fe::from_u64(7), Fe::from_u64(2)));
    let mut replay = Transcript::new(b"sumcheck-test");
    replay.append_field(b"g0", &Fe::from_u64(7));
    replay.append_field(b"g1", &Fe::from_u64(2));
    let r0 = replay.challenge_scalar(b"r");

    // Round 1: the table folded at the first challenge.
    let folded = poly.fold_first_var(r0);
    assert_eq!(proof.round_polys[1], RoundPoly::new(folded.evals[0], folded.evals[1]));
    replay.append_field(b"g0", &folded.evals[0]);
    replay.append_field(b"g1", &folded.evals[1]);
    let r1 = replay.challenge_scalar(b"r");

    // The transcripts of prover, verifier and replay end alike.
    let mut v = Transcript::new(b"sumcheck-test");
    let (point, claim) = verify_rounds(&stmt, &proof, &mut v).unwrap();
    assert_eq!(point, vec![r0, r1]);
    assert_eq!(claim, proof.round_polys[1].eval(r1));
    assert_eq!(claim, poly.eval_at(&point));
    let next = replay.challenge_scalar(b"r");
    assert_eq!(t.challenge_scalar(b"r"), next);
    assert_eq!(v.challenge_scalar(b"r"), next);
}

#[test]
fn oracle_for_another_polynomial_is_refused_without_error() {
    let poly = MLPoly { n_vars: 2, evals: small(&[3, 1, 4, 1]) };
    let other = MLPoly { n_vars: 2, evals: small(&[1, 3, 1, 4]) };
    let stmt = Statement { n_vars: 2, claim_sum: Fe::from_u64(9) };
    assert_eq!(other.sum_all(), poly.sum_all());
    let mut t = Transcript::new(b"sumcheck-test");
    let proof = prove(&stmt, &poly, &mut t);
    let oracle = PolyOracle::new(other);
    let mut t = Transcript::new(b"sumcheck-test");
    assert_eq!(verify(&stmt, &proof, &oracle, &mut t), Ok(false));
}

#[test]
fn tampered_later_round_is_caught_in_that_round() {
    let poly = MLPoly { n_vars: 3, evals: small(&[3, 1, 4, 1, 5, 9, 2, 6]) };
    let stmt = Statement { n_vars: 3, claim_sum: poly.sum_all() };
    let mut t = Transcript::new(b"d");
    let mut proof = prove(&stmt, &poly, &mut t);
    proof.round_polys[2].g1 = proof.round_polys[2].g1.plus(Fe::one());
    let oracle = PolyOracle::new(poly);
    let mut t = Transcript::new(b"d");
    assert_eq!(
        verify(&stmt, &proof, &oracle, &mut t),
        Err(Error::InvalidProof("sum check failed"))
    );
}

#[test]
fn constant_polynomial_needs_no_round() {
    let poly = MLPoly { n_vars: 0, evals: small(&[5]) };
    let mut t = Transcript::new(b"d");
    let stmt = Statement { n_vars: 0, claim_sum: Fe::from_u64(5) };
    let proof = prove(&stmt, &poly, &mut t);
    assert_eq!(proof.num_rounds(), 0);
    let oracle = PolyOracle::new(poly);
    let mut t = Transcript::new(b"d");
    assert_eq!(verify(&stmt, &proof, &oracle, &mut t), Ok(true));
    let wrong = Statement { n_vars: 0, claim_sum: Fe::from_u64(6) };
    let mut t = Transcript::new(b"d");
    assert_eq!(verify(&wrong, &proof, &oracle, &mut t), Ok(false));
}

struct Fixed(Fe);

impl Oracle for Fixed {
    fn query(&self, _point: &[Fe]) -> Fe {
        self.0
    }
}

#[test]
fn any_oracle_can_be_asked() {
    let poly = MLPoly { n_vars: 1, evals: small(&[2, 5]) };
    let stmt = Statement { n_vars: 1, claim_sum: Fe::from_u64(7) };
    let mut t = Transcript::new(b"d");
    let proof = prove(&stmt, &poly, &mut t);
    let mut t = Transcript::new(b"d");
    let (point, claim) = verify_rounds(&stmt, &proof, &mut t).unwrap();
    assert_eq!(point.len(), 1);
    let mut t = Transcript::new(b"d");
    assert_eq!(verify(&stmt, &proof, &Fixed(claim), &mut t), Ok(true));
    let mut t = Transcript::new(b"d");
    assert_eq!(verify(&stmt, &proof, &Fixed(claim.plus(Fe::one())), &mut t), Ok(false));
}
