use sumcheck::bytes::{u64_from_le_bytes, u64_to_le_bytes};

#[test]
fn u64_to_bytes_is_little_endian() {
    assert_eq!(u64_to_le_bytes(0), [0u8; 8]);
    assert_eq!(u64_to_le_bytes(1), [1, 0, 0, 0, 0, 0, 0, 0]);
    assert_eq!(
        u64_to_le_bytes(0x0102030405060708),
        [8, 7, 6, 5, 4, 3, 2, 1]
    );
    assert_eq!(u64_to_le_bytes(u64::MAX), [0xff; 8]);
    for x in [0u64, 255, 256, 65535, 1 << 40, u64::MAX - 1] {
        assert_eq!(u64_to_le_bytes(x), x.to_le_bytes());
    }
}

#[test]
fn u64_from_bytes_is_little_endian() {
    assert_eq!(u64_from_le_bytes(&[0u8; 8]), 0);
    assert_eq!(u64_from_le_bytes(&[8, 7, 6, 5, 4, 3, 2, 1]), 0x0102030405060708);
    assert_eq!(u64_from_le_bytes(&[0xff; 8]), u64::MAX);
    assert_eq!(u64_from_le_bytes(&[0, 1, 0, 0, 0, 0, 0, 0]), 256);
}

#[test]
fn u64_bytes_round_trip() {
    for x in [0u64, 1, 255, 256, 0xdeadbeef, u64::MAX] {
        assert_eq!(u64_from_le_bytes(&u64_to_le_bytes(x)), x);
    }
}
