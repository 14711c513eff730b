use cic2nf::text::{
    decimal_string, pad_left_aligned, pad_right_aligned, parse_count, parse_signed,
    parse_unsigned,
};

#[test]
fn unsigned_text() {
    assert_eq!(parse_unsigned("443", 65535), Some(443));
    assert_eq!(parse_unsigned("+7", 10), Some(7));
    assert_eq!(parse_unsigned("65536", 65535), None);
    assert_eq!(parse_unsigned("", 9), None);
    assert_eq!(parse_unsigned("+", 9), None);
    assert_eq!(parse_unsigned(" 1", 9), None);
    assert_eq!(parse_unsigned("18446744073709551615", u64::MAX), Some(u64::MAX));
    assert_eq!(parse_unsigned("18446744073709551616", u64::MAX), None);
}

#[test]
fn signed_text() {
    assert_eq!(parse_signed("-1"), Some(-1));
    assert_eq!(parse_signed("120"), Some(120));
    assert_eq!(parse_signed("-9223372036854775808"), Some(i64::MIN));
    assert_eq!(parse_signed("9223372036854775807"), Some(i64::MAX));
    assert_eq!(parse_signed("9223372036854775808"), None);
    assert_eq!(parse_signed("-"), None);
    assert_eq!(parse_signed("1.5"), None);
}

#[test]
fn count_text() {
    assert_eq!(parse_count("12", 100), Some(12));
    assert_eq!(parse_count("12.0", 100), Some(12));
    assert_eq!(parse_count("12.75", 100), Some(12));
    assert_eq!(parse_count("12.", 100), Some(12));
    assert_eq!(parse_count(".5", 100), None);
    assert_eq!(parse_count("1.2.3", 100), None);
    assert_eq!(parse_count("101.0", 100), None);
    assert_eq!(parse_count("x", 100), None);
}

#[test]
fn decimal_and_padding() {
    assert_eq!(decimal_string(0), "0");
    assert_eq!(decimal_string(1234567890), "1234567890");
    assert_eq!(pad_right_aligned("ab", 5), "   ab");
    assert_eq!(pad_left_aligned("ab", 5), "ab   ");
    assert_eq!(pad_right_aligned("abcdef", 3), "abcdef");
}
