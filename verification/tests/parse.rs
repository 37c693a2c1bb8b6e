use msr_flip::parse::{parse_msr_addr, parse_range, parse_spec, parse_specs, BitSpec, ParseError};

#[test]
fn address_in_hex_and_decimal() {
    assert_eq!(parse_msr_addr("0x10"), Ok(16));
    assert_eq!(parse_msr_addr("16"), Ok(16));
}

#[test]
fn address_rejects_bad_digits_and_empty() {
    assert_eq!(parse_msr_addr("0xGG"), Err(ParseError::InvalidAddress));
    assert_eq!(parse_msr_addr(""), Err(ParseError::InvalidAddress));
}

#[test]
fn address_hex_digits_in_either_case() {
    assert_eq!(parse_msr_addr("0x1a0"), Ok(0x1a0));
    assert_eq!(parse_msr_addr("0x1A0"), Ok(0x1a0));
    assert_eq!(parse_msr_addr("0xdeadBEEF"), Ok(0xdead_beef));
    assert_eq!(parse_msr_addr("0x0"), Ok(0));
    assert_eq!(parse_msr_addr("0"), Ok(0));
    assert_eq!(parse_msr_addr("007"), Ok(7));
}

#[test]
fn address_needs_a_digit_after_the_prefix() {
    assert_eq!(parse_msr_addr("0x"), Err(ParseError::InvalidAddress));
    assert_eq!(parse_msr_addr("x10"), Err(ParseError::InvalidAddress));
    assert_eq!(parse_msr_addr("0X10"), Err(ParseError::InvalidAddress));
    assert_eq!(parse_msr_addr("1a0"), Err(ParseError::InvalidAddress));
}

#[test]
fn address_takes_digits_only() {
    assert_eq!(parse_msr_addr("+16"), Err(ParseError::InvalidAddress));
    assert_eq!(parse_msr_addr("-16"), Err(ParseError::InvalidAddress));
    assert_eq!(parse_msr_addr("0x+10"), Err(ParseError::InvalidAddress));
    assert_eq!(parse_msr_addr(" 16"), Err(ParseError::InvalidAddress));
    assert_eq!(parse_msr_addr("16 "), Err(ParseError::InvalidAddress));
    assert_eq!(parse_msr_addr("1_6"), Err(ParseError::InvalidAddress));
    assert_eq!(parse_msr_addr("\u{ff11}\u{ff16}"), Err(ParseError::InvalidAddress));
}

#[test]
fn address_must_fit_in_64_bits() {
    assert_eq!(parse_msr_addr("18446744073709551615"), Ok(u64::MAX));
    assert_eq!(parse_msr_addr("18446744073709551616"), Err(ParseError::InvalidAddress));
    assert_eq!(parse_msr_addr("99999999999999999999999"), Err(ParseError::InvalidAddress));
    assert_eq!(parse_msr_addr("0xffffffffffffffff"), Ok(u64::MAX));
    assert_eq!(parse_msr_addr("0x10000000000000000"), Err(ParseError::InvalidAddress));
    assert_eq!(parse_msr_addr("0x00000000000000000000ff"), Ok(255));
}

#[test]
fn range_single_and_pair() {
    assert_eq!(parse_range("3"), Ok(3..4));
    assert_eq!(parse_range("3-5"), Ok(3..5));
}

#[test]
fn range_rejects_words_and_three_parts() {
    assert_eq!(parse_range("bad"), Err(ParseError::InvalidRange));
    assert_eq!(parse_range("1-2-3"), Err(ParseError::InvalidRange));
}

#[test]
fn range_may_be_empty_or_inverted() {
    assert_eq!(parse_range("5-5"), Ok(5..5));
    assert_eq!(parse_range("7-2"), Ok(7..2));
    assert_eq!(parse_range("0-0"), Ok(0..0));
}

#[test]
fn range_needs_a_number_in_every_part() {
    assert_eq!(parse_range(""), Err(ParseError::InvalidRange));
    assert_eq!(parse_range("-"), Err(ParseError::InvalidRange));
    assert_eq!(parse_range("3-"), Err(ParseError::InvalidRange));
    assert_eq!(parse_range("-3"), Err(ParseError::InvalidRange));
    assert_eq!(parse_range("--"), Err(ParseError::InvalidRange));
    assert_eq!(parse_range("3--5"), Err(ParseError::InvalidRange));
    assert_eq!(parse_range("3-x"), Err(ParseError::InvalidRange));
    assert_eq!(parse_range("0x3"), Err(ParseError::InvalidRange));
    assert_eq!(parse_range("+3"), Err(ParseError::InvalidRange));
    assert_eq!(parse_range("3:5"), Err(ParseError::InvalidRange));
}

#[test]
fn range_numbers_are_sixteen_bits_wide() {
    assert_eq!(parse_range("65535"), Ok(65535..65536));
    assert_eq!(parse_range("0-65535"), Ok(0..65535));
    assert_eq!(parse_range("65536"), Err(ParseError::InvalidRange));
    assert_eq!(parse_range("0-65536"), Err(ParseError::InvalidRange));
    assert_eq!(parse_range("000012"), Ok(12..13));
}

#[test]
fn spec_without_cores_covers_all_cores() {
    assert_eq!(parse_spec("5", 4), Ok(BitSpec { cores: 0..4, bits: 5..6 }));
    assert_eq!(parse_spec("5", 1), Ok(BitSpec { cores: 0..1, bits: 5..6 }));
    assert_eq!(parse_spec("5", 0), Ok(BitSpec { cores: 0..0, bits: 5..6 }));
    assert_eq!(parse_spec("5", 65535), Ok(BitSpec { cores: 0..65535, bits: 5..6 }));
    assert_eq!(parse_spec("8-16", 2), Ok(BitSpec { cores: 0..2, bits: 8..16 }));
}

#[test]
fn spec_with_cores() {
    assert_eq!(parse_spec("0-1:5", 4), Ok(BitSpec { cores: 0..1, bits: 5..6 }));
    assert_eq!(parse_spec("2:0-64", 4), Ok(BitSpec { cores: 2..3, bits: 0..64 }));
    assert_eq!(parse_spec("1-3:60-63", 4), Ok(BitSpec { cores: 1..3, bits: 60..63 }));
}

#[test]
fn spec_is_not_checked_against_the_machine() {
    assert_eq!(parse_spec("9:70", 4), Ok(BitSpec { cores: 9..10, bits: 70..71 }));
    assert!(!BitSpec { cores: 9..10, bits: 70..71 }.is_well_formed(4));
    assert!(!BitSpec { cores: 0..5, bits: 0..1 }.is_well_formed(4));
    assert!(!BitSpec { cores: 0..1, bits: 0..65 }.is_well_formed(4));
    assert!(!BitSpec { cores: 1..1, bits: 0..1 }.is_well_formed(4));
    assert!(!BitSpec { cores: 0..1, bits: 3..2 }.is_well_formed(4));
    assert!(BitSpec { cores: 0..4, bits: 0..64 }.is_well_formed(4));
    assert!(BitSpec { cores: 3..4, bits: 63..64 }.is_well_formed(4));
}

#[test]
fn spec_rejects_other_shapes() {
    assert_eq!(parse_spec("", 4), Err(ParseError::InvalidSpec));
    assert_eq!(parse_spec(":", 4), Err(ParseError::InvalidSpec));
    assert_eq!(parse_spec(":5", 4), Err(ParseError::InvalidSpec));
    assert_eq!(parse_spec("5:", 4), Err(ParseError::InvalidSpec));
    assert_eq!(parse_spec("1:2:3", 4), Err(ParseError::InvalidSpec));
    assert_eq!(parse_spec("a:5", 4), Err(ParseError::InvalidSpec));
    assert_eq!(parse_spec("0:b", 4), Err(ParseError::InvalidSpec));
    assert_eq!(parse_spec("0-1-2:5", 4), Err(ParseError::InvalidSpec));
    assert_eq!(parse_spec("0:5-6-7", 4), Err(ParseError::InvalidSpec));
    assert_eq!(parse_spec("bad", 4), Err(ParseError::InvalidSpec));
}

#[test]
fn spec_list_keeps_the_order() {
    let tokens = vec![String::from("0:3"), String::from("1-2:5-7"), String::from("63")];
    assert_eq!(
        parse_specs(&tokens, 2),
        Ok(vec![
            BitSpec { cores: 0..1, bits: 3..4 },
            BitSpec { cores: 1..2, bits: 5..7 },
            BitSpec { cores: 0..2, bits: 63..64 },
        ])
    );
}

#[test]
fn spec_list_may_be_empty() {
    assert_eq!(parse_specs(&vec![], 4), Ok(vec![]));
}

#[test]
fn spec_list_names_the_first_bad_token() {
    let tokens = vec![
        String::from("0:3"),
        String::from("1:"),
        String::from("5"),
        String::from("x"),
    ];
    assert_eq!(parse_specs(&tokens, 4), Err(1));
    assert_eq!(parse_specs(&vec![String::from("1:2:3")], 4), Err(0));
}

#[test]
fn spec_clone_is_equal() {
    let spec = BitSpec { cores: 1..3, bits: 5..7 };
    assert_eq!(spec.clone(), spec);
}
