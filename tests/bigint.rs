use spx_crypto::bigint::{width_of, BoundedUint, OverflowError};

#[test]
fn big_endian_round_trip() {
    // 12 bits: two bytes, the top nibble free
    let b = [0x0a, 0xbc];
    let x = BoundedUint::from_be_bytes(&b, 12).unwrap();
    assert_eq!(x.to_be_bytes(), vec![0x0a, 0xbc]);
    assert_eq!(x.to_le_bytes(), vec![0xbc, 0x0a]);
    assert_eq!(x.to_decimal_string(), "2748");
}

#[test]
fn big_endian_pads_high_side() {
    let x = BoundedUint::from_be_bytes(&[0x05], 24).unwrap();
    assert_eq!(x.to_be_bytes(), vec![0, 0, 5]);
    assert_eq!(x.to_le_bytes(), vec![5, 0, 0]);
}

#[test]
fn little_endian_round_trip() {
    let b = [0x01, 0x02, 0x03];
    let x = BoundedUint::from_le_bytes(&b, 24).unwrap();
    assert_eq!(x.to_le_bytes(), b.to_vec());
    assert_eq!(x.to_be_bytes(), vec![3, 2, 1]);
    assert_eq!(x.to_decimal_string(), "197121");
}

#[test]
fn little_endian_pads_high_side() {
    let x = BoundedUint::from_le_bytes(&[0xff], 20).unwrap();
    assert_eq!(x.to_le_bytes(), vec![0xff, 0, 0]);
    assert_eq!(x.to_be_bytes(), vec![0, 0, 0xff]);
}

#[test]
fn overflow_reports_bits() {
    // 0x1000 needs 13 bits
    assert_eq!(
        BoundedUint::from_be_bytes(&[0x10, 0x00], 12).err(),
        Some(OverflowError { required_bits: 13, bound_bits: 12 })
    );
    assert_eq!(
        BoundedUint::from_le_bytes(&[0x00, 0x00, 0x01], 16).err(),
        Some(OverflowError { required_bits: 17, bound_bits: 16 })
    );
    // exactly at the bound is accepted
    assert!(BoundedUint::from_be_bytes(&[0x0f, 0xff], 12).is_ok());
}

#[test]
fn leading_zeros_beyond_width_are_accepted() {
    let x = BoundedUint::from_be_bytes(&[0, 0, 0, 0x7f], 8).unwrap();
    assert_eq!(x.to_be_bytes(), vec![0x7f]);
    assert_eq!(x.bit_bound(), 8);
}

#[test]
fn zero_and_empty() {
    let x = BoundedUint::from_be_bytes(&[], 16).unwrap();
    assert_eq!(x.to_be_bytes(), vec![0, 0]);
    assert_eq!(x.to_decimal_string(), "0");
    let z = BoundedUint::zero(0);
    assert_eq!(z.to_le_bytes(), Vec::<u8>::new());
    assert_eq!(z.to_decimal_string(), "0");
    assert_eq!(
        BoundedUint::from_le_bytes(&[1], 0).err(),
        Some(OverflowError { required_bits: 1, bound_bits: 0 })
    );
}

#[test]
fn decimal_rendering() {
    let x = BoundedUint::from_be_bytes(&[0xff, 0xff, 0xff, 0xff, 0xff, 0xff, 0xff, 0xff, 0xff], 72)
        .unwrap();
    assert_eq!(x.to_decimal_string(), "4722366482869645213695");
    let y = BoundedUint::from_be_bytes(&[0x0a], 8).unwrap();
    assert_eq!(y.to_decimal_string(), "10");
}

#[test]
fn widths() {
    assert_eq!(width_of(0), 0);
    assert_eq!(width_of(1), 1);
    assert_eq!(width_of(8), 1);
    assert_eq!(width_of(9), 2);
    assert_eq!(width_of(7856 * 8), 7856);
}
