use talon::text::{decimal, decimal_i64, parse_i64, trim};

#[test]
fn decimal_numbers_read_back() {
    assert_eq!(decimal(0), "0");
    assert_eq!(decimal(18446744073709551615), "18446744073709551615");
    assert_eq!(decimal_i64(-42), "-42");
    assert_eq!(parse_i64("-42"), Some(-42));
    assert_eq!(parse_i64("+7"), Some(7));
    assert_eq!(parse_i64("9223372036854775807"), Some(i64::MAX));
    assert_eq!(parse_i64("-9223372036854775808"), Some(i64::MIN));
    assert_eq!(parse_i64("9223372036854775808"), None);
    assert_eq!(parse_i64(""), None);
    assert_eq!(parse_i64("1a"), None);
}

#[test]
fn white_space_is_trimmed() {
    let s: String = trim(" \t a b\n").into_iter().collect();
    assert_eq!(s, "a b");
}
