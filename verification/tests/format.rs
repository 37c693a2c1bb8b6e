use msr_flip::format::{format_binary, format_hex, format_msr_line, format_msr_val, msr_node_path};
use msr_flip::register::RegisterValue;

#[test]
fn zero_register_renders_as_zero_digits() {
    let zero = RegisterValue { bytes: [0; 8] };
    assert_eq!(
        format_binary(&zero),
        "00000000 00000000 00000000 00000000   00000000 00000000 00000000 00000000 "
    );
    assert_eq!(format_hex(&zero), "00 00 00 00   00 00 00 00 ");
}

#[test]
fn both_forms_are_six_spaces_apart() {
    let value = RegisterValue { bytes: [0x08, 0, 0, 0x80, 0x01, 0, 0xab, 0xf0] };
    assert_eq!(
        format_msr_val(&value),
        "11110000 10101011 00000000 00000001   10000000 00000000 00000000 00001000       f0 ab 00 01   80 00 00 08 "
    );
}

#[test]
fn line_starts_with_core_index() {
    let value = RegisterValue { bytes: [0x60, 0, 0, 0, 0, 0, 0, 0] };
    assert_eq!(
        format_msr_line(12, &value),
        "12: 00000000 00000000 00000000 00000000   00000000 00000000 00000000 01100000       00 00 00 00   00 00 00 60 "
    );
    assert!(format_msr_line(0, &value).starts_with("0: "));
    assert!(format_msr_line(65535, &value).starts_with("65535: "));
}

#[test]
fn device_path_names_the_core() {
    assert_eq!(msr_node_path(0), "/dev/cpu/0/msr");
    assert_eq!(msr_node_path(107), "/dev/cpu/107/msr");
}

#[test]
fn every_byte_value_renders_as_its_digits() {
    for byte in 0..=255u8 {
        let value = RegisterValue { bytes: [byte, 0, 0, 0, 0, 0, 0, 0] };
        let binary = format_binary(&value);
        let hex = format_hex(&value);
        assert_eq!(binary.len(), 74);
        assert_eq!(hex.len(), 26);
        assert_eq!(&binary[65..73], format!("{:08b}", byte));
        assert_eq!(&hex[23..25], format!("{:02x}", byte));
    }
}

#[test]
fn gap_stands_in_front_of_byte_three() {
    let value = RegisterValue { bytes: [0x10, 0x32, 0x54, 0x76, 0x98, 0xba, 0xdc, 0xfe] };
    assert_eq!(format_hex(&value), "fe dc ba 98   76 54 32 10 ");
    assert_eq!(
        format_binary(&value),
        "11111110 11011100 10111010 10011000   01110110 01010100 00110010 00010000 "
    );
}

#[test]
fn line_is_the_same_as_formatting_by_hand() {
    let value = RegisterValue { bytes: [0x10, 0x32, 0x54, 0x76, 0x98, 0xba, 0xdc, 0xfe] };
    for core in [0u16, 1, 9, 10, 99, 100, 4095, 65535] {
        let mut expected = format!("{}: ", core);
        for form in 0..2 {
            for index in (0..8).rev() {
                if index == 3 {
                    expected.push_str("  ");
                }
                if form == 0 {
                    expected.push_str(&format!("{:08b} ", value.bytes[index]));
                } else {
                    expected.push_str(&format!("{:02x} ", value.bytes[index]));
                }
            }
            if form == 0 {
                expected.push_str("      ");
            }
        }
        assert_eq!(format_msr_line(core, &value), expected);
        assert_eq!(msr_node_path(core), format!("/dev/cpu/{}/msr", core));
    }
}
