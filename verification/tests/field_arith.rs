use ark_bn254::Fr;
use ark_ff::PrimeField;
use sumcheck::field::Fe;

fn fe(x: Fr) -> Fe {
    Fe::from_limbs(x.into_bigint().0).expect("canonical limbs")
}

fn fr(x: Fe) -> Fr {
    Fr::from_bigint(ark_ff::BigInt::new(x.to_limbs())).expect("canonical limbs")
}

#[test]
fn small_sums_and_products() {
    let a = Fe::from_u64(7);
    let b = Fe::from_u64(5);
    assert_eq!(a.plus(b), Fe::from_u64(12));
    assert_eq!(a.minus(b), Fe::from_u64(2));
    assert_eq!(a.times(b), Fe::from_u64(35));
}

#[test]
fn subtraction_wraps_below_zero() {
    let a = Fe::from_u64(5);
    let b = Fe::from_u64(7);
    let d = a.minus(b);
    assert_eq!(fr(d), Fr::from(5u64) - Fr::from(7u64));
    assert_eq!(d.plus(Fe::from_u64(2)), Fe::zero());
    assert_eq!(
        d.to_limbs(),
        [
            0x43e1f593efffffff,
            0x2833e84879b97091,
            0xb85045b68181585d,
            0x30644e72e131a029
        ]
    );
}

#[test]
fn from_limbs_rejects_the_modulus() {
    let p = [
        0x43e1f593f0000001u64,
        0x2833e84879b97091,
        0xb85045b68181585d,
        0x30644e72e131a029,
    ];
    assert!(Fe::from_limbs(p).is_none());
    let p_minus_1 = [p[0] - 1, p[1], p[2], p[3]];
    let m = Fe::from_limbs(p_minus_1).unwrap();
    assert_eq!(m.plus(Fe::one()), Fe::zero());
    assert!(Fe::from_limbs([0, 0, 0, u64::MAX]).is_none());
}

#[test]
fn agrees_with_the_field_library() {
    let x = Fr::from(123456789u64) * Fr::from(987654321u64) - Fr::from(17u64);
    let y = Fr::from(3u64) - Fr::from(1000u64);
    assert_eq!(fr(fe(x).plus(fe(y))), x + y);
    assert_eq!(fr(fe(x).minus(fe(y))), x - y);
    assert_eq!(fr(fe(x).times(fe(y))), x * y);
}

#[test]
fn encoding_is_32_little_endian_bytes() {
    let bytes = Fe::from_u64(0x0102).to_bytes();
    assert_eq!(bytes.len(), 32);
    assert_eq!(bytes[0], 0x02);
    assert_eq!(bytes[1], 0x01);
    assert!(bytes[2..].iter().all(|b| *b == 0));
    assert_eq!(Fe::from_bytes(&bytes), Some(Fe::from_u64(0x0102)));
}

#[test]
fn decoding_rejects_bad_input() {
    assert_eq!(Fe::from_bytes(&[0u8; 31]), None);
    assert_eq!(Fe::from_bytes(&[0u8; 33]), None);
    assert_eq!(Fe::from_bytes(&[0xffu8; 32]), None);
    let mut p = Vec::new();
    for limb in [
        0x43e1f593f0000001u64,
        0x2833e84879b97091,
        0xb85045b68181585d,
        0x30644e72e131a029,
    ] {
        p.extend_from_slice(&limb.to_le_bytes());
    }
    assert_eq!(Fe::from_bytes(&p), None);
    p[0] = 0;
    assert!(Fe::from_bytes(&p).is_some());
}

#[test]
fn reduction_of_wide_integers() {
    assert_eq!(Fe::from_le_bytes_mod_order(&[]), Fe::zero());
    assert_eq!(Fe::from_le_bytes_mod_order(&[5]), Fe::from_u64(5));
    // 2^256 - 1 = 5 * p + 0x0e0a77c19a07df2f666ea36f7879462e36fc76959f60cd29ac96341c4ffffffa
    let r = Fe::from_le_bytes_mod_order(&[0xffu8; 32]);
    assert_eq!(
        r.to_limbs(),
        [
            0xac96341c4ffffffa,
            0x36fc76959f60cd29,
            0x666ea36f7879462e,
            0x0e0a77c19a07df2f
        ]
    );
}
