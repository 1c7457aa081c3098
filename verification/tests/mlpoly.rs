use ark_bn254::Fr;
use ark_ff::PrimeField;
use ark_std::UniformRand;
use sumcheck::field::Fe;
use sumcheck::mlpoly::MLPoly;

fn fe(x: Fr) -> Fe {
    Fe::from_limbs(x.into_bigint().0).expect("canonical limbs")
}

fn fr(x: Fe) -> Fr {
    Fr::from_bigint(ark_ff::BigInt::new(x.to_limbs())).expect("canonical limbs")
}

fn small(values: &[u64]) -> Vec<Fe> {
    values.iter().map(|v| Fe::from_u64(*v)).collect()
}

fn random_poly(n_vars: usize) -> MLPoly {
    let mut rng = ark_std::test_rng();
    let evals: Vec<Fe> = (0..(1usize << n_vars)).map(|_| fe(Fr::rand(&mut rng))).collect();
    MLPoly { n_vars, evals }
}

#[test]
fn new_is_the_zero_polynomial() {
    let p = MLPoly::new(3);
    assert_eq!(p.n_vars, 3);
    assert_eq!(p.len(), 8);
    assert!(p.evals.iter().all(|e| *e == Fe::zero()));
    assert_eq!(p.sum_all(), Fe::zero());
    let c = MLPoly::new(0);
    assert_eq!(c.len(), 1);
    assert!(c.is_constant());
    assert!(!p.is_constant());
}

#[test]
fn from_evals_infers_the_number_of_variables() {
    assert_eq!(MLPoly::from_evals(small(&[9])).n_vars, 0);
    assert_eq!(MLPoly::from_evals(small(&[1, 2])).n_vars, 1);
    assert_eq!(MLPoly::from_evals(small(&[1, 2, 3, 4])).n_vars, 2);
    let p = MLPoly::from_evals(small(&[1, 2, 3, 4, 5, 6, 7, 8]));
    assert_eq!(p.n_vars, 3);
    assert_eq!(p.evals, small(&[1, 2, 3, 4, 5, 6, 7, 8]));
}

#[test]
fn get_is_absent_out_of_range() {
    let p = MLPoly::from_evals(small(&[10, 20, 30, 40]));
    assert_eq!(p.get(0), Some(&Fe::from_u64(10)));
    assert_eq!(p.get(3), Some(&Fe::from_u64(40)));
    assert_eq!(p.get(4), None);
    assert_eq!(p.get(usize::MAX), None);
}

#[test]
fn sum_all_adds_every_entry() {
    let p = MLPoly::from_evals(small(&[1, 2, 3, 4]));
    assert_eq!(p.sum_all(), Fe::from_u64(10));
    let q = random_poly(4);
    let expected: Fr = q.evals.iter().map(|e| fr(*e)).sum();
    assert_eq!(fr(q.sum_all()), expected);
}

#[test]
fn round_sums_are_the_even_and_the_odd_entries() {
    let p = MLPoly::from_evals(small(&[1, 2, 3, 4, 5, 6, 7, 8]));
    assert_eq!(p.round_sum_g0_g1(), (Fe::from_u64(16), Fe::from_u64(20)));
}

#[test]
fn round_sums_add_up_to_the_sum() {
    for n_vars in 1..6 {
        let p = random_poly(n_vars);
        let (g0, g1) = p.round_sum_g0_g1();
        assert_eq!(g0.plus(g1), p.sum_all());
    }
}

#[test]
fn round_sums_of_a_constant_are_zero() {
    let p = MLPoly::from_evals(small(&[5]));
    assert_eq!(p.round_sum_g0_g1(), (Fe::zero(), Fe::zero()));
    assert_eq!(p.sum_all(), Fe::from_u64(5));
}

#[test]
fn fold_interpolates_each_pair() {
    // 1 * (1 - 2) + 2 * 2 = 3, 3 * (1 - 2) + 4 * 2 = 5
    let p = MLPoly::from_evals(small(&[1, 2, 3, 4]));
    let f = p.fold_first_var(Fe::from_u64(2));
    assert_eq!(f.n_vars, 1);
    assert_eq!(f.evals, small(&[3, 5]));
    // 10 * (1 - 3) + 4 * 3 = -8
    let q = MLPoly::from_evals(small(&[10, 4]));
    let g = q.fold_first_var(Fe::from_u64(3));
    assert_eq!(g.n_vars, 0);
    assert_eq!(g.evals, vec![Fe::zero().minus(Fe::from_u64(8))]);
}

#[test]
fn fold_at_zero_and_one_selects_subtables() {
    let p = random_poly(4);
    let even: Vec<Fe> = p.evals.iter().step_by(2).copied().collect();
    let odd: Vec<Fe> = p.evals.iter().skip(1).step_by(2).copied().collect();
    assert_eq!(p.fold_first_var(Fe::zero()).evals, even);
    assert_eq!(p.fold_first_var(Fe::one()).evals, odd);
}

#[test]
fn fold_does_not_change_the_polynomial() {
    let p = random_poly(3);
    let before = p.clone();
    let _ = p.fold_first_var(Fe::from_u64(7));
    assert_eq!(p, before);
}

#[test]
fn fold_many_folds_in_order() {
    let p = random_poly(4);
    let r = [Fe::from_u64(3), Fe::from_u64(5), Fe::from_u64(8)];
    let step = p.fold_first_var(r[0]).fold_first_var(r[1]).fold_first_var(r[2]);
    assert_eq!(p.fold_many(&r), step);
    assert_eq!(p.fold_many(&[]), p);
    assert_ne!(p.fold_many(&[r[1], r[0]]), p.fold_many(&[r[0], r[1]]));
}

#[test]
fn eval_at_boolean_points_reads_the_table() {
    let p = random_poly(3);
    for index in 0..8usize {
        let x: Vec<Fe> = (0..3).map(|k| Fe::from_u64(((index >> k) & 1) as u64)).collect();
        assert_eq!(p.eval_at(&x), p.evals[index]);
    }
}

#[test]
fn eval_at_is_the_multilinear_extension() {
    // f(x1, x2) = 1 + x1 + 2 x2 has the table [1, 2, 3, 4]; f(5, 7) = 20.
    let p = MLPoly::from_evals(small(&[1, 2, 3, 4]));
    assert_eq!(p.eval_at(&[Fe::from_u64(5), Fe::from_u64(7)]), Fe::from_u64(20));
    // f(x1, x2) = x1 * x2 has the table [0, 0, 0, 1]; f(6, 7) = 42.
    let q = MLPoly::from_evals(small(&[0, 0, 0, 1]));
    assert_eq!(q.eval_at(&[Fe::from_u64(6), Fe::from_u64(7)]), Fe::from_u64(42));
    let c = MLPoly::from_evals(small(&[9]));
    assert_eq!(c.eval_at(&[]), Fe::from_u64(9));
}

#[test]
fn sum_of_fold_is_the_round_polynomial_at_the_challenge() {
    let p = random_poly(4);
    let (g0, g1) = p.round_sum_g0_g1();
    let r = Fe::from_u64(123456789);
    let expected = g0.plus(g1.minus(g0).times(r));
    assert_eq!(p.fold_first_var(r).sum_all(), expected);
}

#[test]
fn polynomial_round_trip() {
    let p = random_poly(3);
    let bytes = p.to_bytes();
    assert_eq!(bytes.len(), 16 + 8 * 32);
    assert_eq!(MLPoly::from_bytes(&bytes), Some(p.clone()));
    let mut longer = bytes.clone();
    longer.extend_from_slice(&[1, 2, 3]);
    assert_eq!(MLPoly::from_bytes(&longer), Some(p));
}

#[test]
fn polynomial_encoding_layout() {
    let p = MLPoly::from_evals(small(&[7, 0x0102]));
    let bytes = p.to_bytes();
    let mut expected = vec![1u8, 0, 0, 0, 0, 0, 0, 0, 2, 0, 0, 0, 0, 0, 0, 0];
    let mut first = [0u8; 32];
    first[0] = 7;
    let mut second = [0u8; 32];
    second[0] = 2;
    second[1] = 1;
    expected.extend_from_slice(&first);
    expected.extend_from_slice(&second);
    assert_eq!(bytes, expected);
}

#[test]
fn polynomial_decoding_rejects_bad_input() {
    let p = MLPoly::from_evals(small(&[1, 2, 3, 4]));
    let bytes = p.to_bytes();
    assert_eq!(MLPoly::from_bytes(&bytes[..bytes.len() - 1]), None);
    assert_eq!(MLPoly::from_bytes(&bytes[..15]), None);
    assert_eq!(MLPoly::from_bytes(&[]), None);
    let mut wrong_vars = bytes.clone();
    wrong_vars[0] = 3;
    assert_eq!(MLPoly::from_bytes(&wrong_vars), None);
    let mut huge_vars = bytes.clone();
    huge_vars[0] = 64;
    assert_eq!(MLPoly::from_bytes(&huge_vars), None);
    let mut bad_element = bytes.clone();
    for b in bad_element[16..48].iter_mut() {
        *b = 0xff;
    }
    assert_eq!(MLPoly::from_bytes(&bad_element), None);
}
