use ark_bn254::Fr;
use ark_ff::PrimeField;
use ark_serialize::{CanonicalDeserialize, CanonicalSerialize};
use ark_std::UniformRand;
use sumcheck::codec::read_elements;
use sumcheck::field::Fe;
use sumcheck::types::{RoundPoly, SumcheckProof};

fn fe(x: Fr) -> Fe {
    Fe::from_limbs(x.into_bigint().0).expect("canonical limbs")
}

fn fr(x: Fe) -> Fr {
    Fr::from_bigint(ark_ff::BigInt::new(x.to_limbs())).expect("canonical limbs")
}

fn random_proof(rounds: usize) -> SumcheckProof {
    let mut rng = ark_std::test_rng();
    let round_polys = (0..rounds)
        .map(|_| RoundPoly::new(fe(Fr::rand(&mut rng)), fe(Fr::rand(&mut rng))))
        .collect();
    SumcheckProof { round_polys }
}

#[test]
fn proof_round_trip() {
    for rounds in [0usize, 1, 2, 7] {
        let proof = random_proof(rounds);
        let bytes = proof.to_bytes();
        assert_eq!(bytes.len(), 8 + 64 * rounds);
        assert_eq!(SumcheckProof::from_bytes(&bytes), Some(proof));
    }
}

#[test]
fn proof_encoding_layout() {
    let proof = SumcheckProof {
        round_polys: vec![
            RoundPoly::new(Fe::from_u64(1), Fe::from_u64(2)),
            RoundPoly::new(Fe::from_u64(0x0304), Fe::zero()),
        ],
    };
    let mut expected = vec![2u8, 0, 0, 0, 0, 0, 0, 0];
    for head in [[1u8, 0], [2, 0], [4, 3], [0, 0]] {
        let mut block = [0u8; 32];
        block[0] = head[0];
        block[1] = head[1];
        expected.extend_from_slice(&block);
    }
    assert_eq!(proof.to_bytes(), expected);
}

#[test]
fn proof_encoding_is_that_of_the_serialization_library() {
    let proof = random_proof(3);
    let pairs: Vec<(Fr, Fr)> = proof.round_polys.iter().map(|p| (fr(p.g0), fr(p.g1))).collect();
    let mut expected = Vec::new();
    pairs.serialize_compressed(&mut expected).unwrap();
    assert_eq!(proof.to_bytes(), expected);
    let back = Vec::<(Fr, Fr)>::deserialize_compressed(&proof.to_bytes()[..]).unwrap();
    assert_eq!(back, pairs);
}

#[test]
fn trailing_bytes_are_left_unread() {
    let proof = random_proof(2);
    let mut bytes = proof.to_bytes();
    bytes.extend_from_slice(&[0xff; 40]);
    assert_eq!(SumcheckProof::from_bytes(&bytes), Some(proof));
}

#[test]
fn proof_decoding_rejects_bad_input() {
    let proof = random_proof(2);
    let bytes = proof.to_bytes();
    assert_eq!(SumcheckProof::from_bytes(&[]), None);
    assert_eq!(SumcheckProof::from_bytes(&bytes[..7]), None);
    assert_eq!(SumcheckProof::from_bytes(&bytes[..bytes.len() - 1]), None);
    let mut more_rounds = bytes.clone();
    more_rounds[0] = 3;
    assert_eq!(SumcheckProof::from_bytes(&more_rounds), None);
    let mut huge = bytes.clone();
    for b in huge[..8].iter_mut() {
        *b = 0xff;
    }
    assert_eq!(SumcheckProof::from_bytes(&huge), None);
    let mut bad_element = bytes.clone();
    for b in bad_element[72..104].iter_mut() {
        *b = 0xff;
    }
    assert_eq!(SumcheckProof::from_bytes(&bad_element), None);
}

#[test]
fn fewer_rounds_than_encoded_are_read_when_the_count_says_so() {
    let proof = random_proof(3);
    let mut bytes = proof.to_bytes();
    bytes[0] = 2;
    let shorter = SumcheckProof { round_polys: proof.round_polys[..2].to_vec() };
    assert_eq!(SumcheckProof::from_bytes(&bytes), Some(shorter));
}

#[test]
fn read_elements_from_an_offset() {
    let mut bytes = vec![9u8; 5];
    bytes.extend_from_slice(&Fe::from_u64(17).to_bytes());
    bytes.extend_from_slice(&Fe::from_u64(23).to_bytes());
    assert_eq!(
        read_elements(&bytes, 5, 2),
        Some(vec![Fe::from_u64(17), Fe::from_u64(23)])
    );
    assert_eq!(read_elements(&bytes, 5, 1), Some(vec![Fe::from_u64(17)]));
    assert_eq!(read_elements(&bytes, 5, 0), Some(vec![]));
    assert_eq!(read_elements(&bytes, 5, 3), None);
    assert_eq!(read_elements(&bytes, 6, 2), None);
    assert_eq!(read_elements(&bytes, bytes.len(), 0), Some(vec![]));
    assert_eq!(read_elements(&bytes, 0, usize::MAX), None);
}
