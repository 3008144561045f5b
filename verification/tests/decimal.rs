use dice_events::decimal::{
    append_decimal, char_digit_value, char_is_digit, decimal_text, parse_decimal,
};

fn chars(text: &str) -> Vec<char> {
    text.chars().collect()
}

#[test]
fn digits_are_the_ten_ascii_digits() {
    for c in "0123456789".chars() {
        assert!(char_is_digit(c));
    }
    for c in ['/', ':', 'a', ' ', '-', '+', '\u{663}', '\u{ff11}', '\u{b2}'] {
        assert!(!char_is_digit(c));
    }
}

#[test]
fn digit_values_run_from_zero_to_nine() {
    for (value, c) in "0123456789".chars().enumerate() {
        assert_eq!(usize::from(char_digit_value(c)), value);
    }
}

#[test]
fn parse_decimal_reads_numbers() {
    assert_eq!(parse_decimal(&chars("0")), Some(0));
    assert_eq!(parse_decimal(&chars("7")), Some(7));
    assert_eq!(parse_decimal(&chars("10")), Some(10));
    assert_eq!(parse_decimal(&chars("1234567890")), Some(1234567890));
    assert_eq!(parse_decimal(&chars("4294967295")), Some(u32::MAX));
}

#[test]
fn parse_decimal_reads_nothing_as_zero() {
    assert_eq!(parse_decimal(&[]), Some(0));
}

#[test]
fn parse_decimal_passes_over_leading_zeros() {
    assert_eq!(parse_decimal(&chars("000")), Some(0));
    assert_eq!(parse_decimal(&chars("0042")), Some(42));
    assert_eq!(parse_decimal(&chars("000000000004294967295")), Some(u32::MAX));
}

#[test]
fn parse_decimal_stops_above_the_largest_number() {
    assert_eq!(parse_decimal(&chars("4294967296")), None);
    assert_eq!(parse_decimal(&chars("4294967299")), None);
    assert_eq!(parse_decimal(&chars("4294967300")), None);
    assert_eq!(parse_decimal(&chars("5000000000")), None);
    assert_eq!(parse_decimal(&chars("42949672950")), None);
    assert_eq!(parse_decimal(&chars("00004294967296")), None);
    assert_eq!(parse_decimal(&chars("340282366920938463463374607431768211456")), None);
}

#[test]
fn decimal_text_writes_numbers() {
    assert_eq!(decimal_text(0), "0");
    assert_eq!(decimal_text(9), "9");
    assert_eq!(decimal_text(10), "10");
    assert_eq!(decimal_text(20), "20");
    assert_eq!(decimal_text(1234567890), "1234567890");
    assert_eq!(decimal_text(4294967296), "4294967296");
    assert_eq!(decimal_text(u64::MAX), "18446744073709551615");
}

#[test]
fn append_decimal_writes_behind_the_text() {
    let mut text = String::from("d");
    append_decimal(&mut text, 20);
    assert_eq!(text, "d20");
    append_decimal(&mut text, 0);
    assert_eq!(text, "d200");
}

#[test]
fn decimal_text_is_read_back() {
    for n in [0u32, 1, 9, 10, 99, 100, 101, 65536, 999999999, 1000000000, u32::MAX] {
        let text = decimal_text(u64::from(n));
        assert_eq!(text, n.to_string());
        assert_eq!(parse_decimal(&chars(&text)), Some(n));
    }
}
