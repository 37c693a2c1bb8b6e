use msr_flip::register::{
    transfer_complete, RegisterValue, REGISTER_BITS, REGISTER_BYTES,
};

#[test]
fn register_is_eight_bytes_of_sixty_four_bits() {
    assert_eq!(REGISTER_BYTES, 8);
    assert_eq!(REGISTER_BITS, 64);
}

#[test]
fn transfer_of_eight_bytes_is_complete() {
    assert!(transfer_complete(8));
    assert!(!transfer_complete(0));
    assert!(!transfer_complete(7));
    assert!(!transfer_complete(9));
}

#[test]
fn value_of_a_whole_transfer() {
    assert_eq!(
        RegisterValue::from_slice(&[1, 2, 3, 4, 5, 6, 7, 8]),
        Some(RegisterValue { bytes: [1, 2, 3, 4, 5, 6, 7, 8] })
    );
}

#[test]
fn short_or_long_transfer_has_no_value() {
    assert_eq!(RegisterValue::from_slice(&[]), None);
    assert_eq!(RegisterValue::from_slice(&[1, 2, 3, 4, 5, 6, 7]), None);
    assert_eq!(RegisterValue::from_slice(&[1, 2, 3, 4, 5, 6, 7, 8, 9]), None);
}

#[test]
fn number_has_byte_zero_lowest() {
    let value = RegisterValue { bytes: [0x08, 0x07, 0x06, 0x05, 0x04, 0x03, 0x02, 0x01] };
    assert_eq!(value.to_u64(), 0x0102_0304_0506_0708);
    assert_eq!(RegisterValue { bytes: [0; 8] }.to_u64(), 0);
    assert_eq!(RegisterValue { bytes: [0xff; 8] }.to_u64(), u64::MAX);
}

#[test]
fn bits_are_numbered_from_the_lowest() {
    let value = RegisterValue { bytes: [0x08, 0, 0, 0, 0, 0, 0, 0x80] };
    for bit in 0..64u8 {
        assert_eq!(value.bit_is_set(bit), bit == 3 || bit == 63);
    }
    assert!(!value.bit_is_set(64));
    assert!(!value.bit_is_set(255));
}

#[test]
fn toggle_is_exclusive_or_with_one_bit() {
    let value = RegisterValue { bytes: [0xa5, 0x5a, 0xff, 0x00, 0x12, 0x34, 0x56, 0x78] };
    for bit in 0..64u8 {
        let out = value.toggle_bit(bit);
        assert_eq!(out.to_u64(), value.to_u64() ^ (1u64 << bit));
        assert_eq!(out.toggle_bit(bit), value);
        for other in 0..64u8 {
            assert_eq!(out.bit_is_set(other), value.bit_is_set(other) != (other == bit));
        }
    }
}

#[test]
fn toggle_of_a_bit_that_is_not_there_changes_nothing() {
    let value = RegisterValue { bytes: [0xa5, 0x5a, 0xff, 0x00, 0x12, 0x34, 0x56, 0x78] };
    assert_eq!(value.toggle_bit(64), value);
    assert_eq!(value.toggle_bit(200), value);
}
