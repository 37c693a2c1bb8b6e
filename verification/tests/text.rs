use msr_flip::parse::{parse_msr_addr, parse_range};
use msr_flip::text::{chars_of, digit_of, parse_number, split_chars};

fn chars(text: &str) -> Vec<char> {
    text.chars().collect()
}

fn parts(text: &str, sep: char) -> Vec<String> {
    split_chars(&chars(text), sep).into_iter().map(|part| part.into_iter().collect()).collect()
}

#[test]
fn chars_come_in_order() {
    assert_eq!(chars_of("0x1f"), vec!['0', 'x', '1', 'f']);
    assert_eq!(chars_of(""), Vec::<char>::new());
    assert_eq!(chars_of("a\u{e9}\u{4e2d}z"), vec!['a', '\u{e9}', '\u{4e2d}', 'z']);
}

#[test]
fn digits_have_their_values() {
    for (value, c) in "0123456789abcdef".chars().enumerate() {
        assert_eq!(digit_of(c, 16), Some(value as u32));
        assert_eq!(digit_of(c, 10), if value < 10 { Some(value as u32) } else { None });
    }
    for (value, c) in "ABCDEF".chars().enumerate() {
        assert_eq!(digit_of(c, 16), Some(value as u32 + 10));
        assert_eq!(digit_of(c, 10), None);
    }
    for c in ['g', 'G', 'x', '-', ':', '+', ' ', '/', '@', '`', '\u{663}'] {
        assert_eq!(digit_of(c, 16), None);
        assert_eq!(digit_of(c, 10), None);
    }
    assert_eq!(digit_of('1', 2), Some(1));
    assert_eq!(digit_of('2', 2), None);
    assert_eq!(digit_of('0', 0), None);
}

#[test]
fn number_is_digits_most_significant_first() {
    assert_eq!(parse_number(&chars("1034"), 10, 5000), Some(1034));
    assert_eq!(parse_number(&chars("1034"), 16, 5000), Some(0x1034));
    assert_eq!(parse_number(&chars("101"), 2, 5000), Some(5));
    assert_eq!(parse_number(&chars("0"), 10, 0), Some(0));
    assert_eq!(parse_number(&chars("0000"), 10, 0), Some(0));
}

#[test]
fn number_stops_at_the_limit() {
    assert_eq!(parse_number(&chars("5000"), 10, 5000), Some(5000));
    assert_eq!(parse_number(&chars("5001"), 10, 5000), None);
    assert_eq!(parse_number(&chars("1"), 10, 0), None);
    assert_eq!(parse_number(&chars("18446744073709551615"), 10, u64::MAX), Some(u64::MAX));
    assert_eq!(parse_number(&chars("18446744073709551616"), 10, u64::MAX), None);
    assert_eq!(parse_number(&chars("18446744073709551620"), 10, u64::MAX), None);
    assert_eq!(parse_number(&chars("184467440737095516150"), 10, u64::MAX), None);
}

#[test]
fn number_needs_digits_and_nothing_else() {
    assert_eq!(parse_number(&chars(""), 10, 5000), None);
    assert_eq!(parse_number(&chars("12a"), 10, 5000), None);
    assert_eq!(parse_number(&chars("a12"), 10, 5000), None);
    assert_eq!(parse_number(&chars("1 2"), 10, 5000), None);
    assert_eq!(parse_number(&chars("99999999999999999999999x"), 10, u64::MAX), None);
    assert_eq!(parse_number(&chars("7"), 0, 5000), None);
}

#[test]
fn split_cuts_at_every_separator() {
    assert_eq!(parts("3-5", '-'), vec!["3", "5"]);
    assert_eq!(parts("1-2-3", '-'), vec!["1", "2", "3"]);
    assert_eq!(parts("35", '-'), vec!["35"]);
    assert_eq!(parts("", '-'), vec![""]);
    assert_eq!(parts("-", '-'), vec!["", ""]);
    assert_eq!(parts("3-", '-'), vec!["3", ""]);
    assert_eq!(parts("-3", '-'), vec!["", "3"]);
    assert_eq!(parts("a--b", '-'), vec!["a", "", "b"]);
    assert_eq!(parts("0-1:5", ':'), vec!["0-1", "5"]);
}

#[test]
fn split_parts_join_to_the_whole() {
    for text in ["", "-", "3-5", "--3--5--", "no separator", "0-1:5-7"] {
        let split = parts(text, '-');
        assert!(split.iter().all(|part| !part.contains('-')));
        assert_eq!(split.join("-"), text);
    }
}

#[test]
fn written_numbers_are_read_back() {
    for number in [0u64, 1, 9, 10, 255, 4096, 65535, 65536, u64::MAX] {
        assert_eq!(parse_msr_addr(&format!("{}", number)), Ok(number));
        assert_eq!(parse_msr_addr(&format!("0x{:x}", number)), Ok(number));
        assert_eq!(parse_msr_addr(&format!("0x{:X}", number)), Ok(number));
    }
    for index in [0u32, 7, 63, 64, 1000, 65535] {
        assert_eq!(parse_range(&format!("{}", index)), Ok(index..index + 1));
        assert_eq!(parse_range(&format!("{}-{}", index, 65535 - index)), Ok(index..65535 - index));
    }
}
