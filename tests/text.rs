use video_ops::text::{parse_seconds, parse_u32, push_decimal, push_seconds, push_signed_decimal, push_signed_seconds, trim_bounds};

#[test]
fn parses_probe_duration() {
    assert_eq!(parse_seconds("12.345678\n"), Some(12_345_678));
    assert_eq!(parse_seconds("3"), Some(3_000_000));
    assert_eq!(parse_seconds(" 7.25 "), Some(7_250_000));
    assert_eq!(parse_seconds(".5"), Some(500_000));
    assert_eq!(parse_seconds("5."), Some(5_000_000));
    assert_eq!(parse_seconds("0"), Some(0));
}

#[test]
fn reads_signs_and_exponents_like_a_float() {
    assert_eq!(parse_seconds("+5"), Some(5_000_000));
    assert_eq!(parse_seconds("1e3"), Some(1_000_000_000));
    assert_eq!(parse_seconds("2.5E1"), Some(25_000_000));
    assert_eq!(parse_seconds("1.5e-3"), Some(1_500));
    assert_eq!(parse_seconds("12345e-2"), Some(123_450_000));
    assert_eq!(parse_seconds("1.e2"), Some(100_000_000));
    assert_eq!(parse_seconds(".5e+1"), Some(5_000_000));
    assert_eq!(parse_seconds("1e-7"), Some(0));
}

#[test]
fn extreme_exponents() {
    assert_eq!(parse_seconds("1e400"), None);
    assert_eq!(parse_seconds("0e999999999999999999999999999999999"), Some(0));
    assert_eq!(parse_seconds("7e-999999999999999999999999999999999"), Some(0));
    assert_eq!(parse_seconds("0.000000000000000000000000001e27"), Some(1_000_000));
}

#[test]
fn rejects_malformed_exponents_and_special_values() {
    assert_eq!(parse_seconds("1e"), None);
    assert_eq!(parse_seconds("e5"), None);
    assert_eq!(parse_seconds("1e+"), None);
    assert_eq!(parse_seconds("1e5x"), None);
    assert_eq!(parse_seconds("inf"), None);
    assert_eq!(parse_seconds("NaN"), None);
    assert_eq!(parse_seconds("-5"), None);
    assert_eq!(parse_seconds("+"), None);
}

#[test]
fn drops_digits_past_microseconds() {
    assert_eq!(parse_seconds("1.2345678"), Some(1_234_567));
}

#[test]
fn rejects_non_numbers() {
    assert_eq!(parse_seconds("N/A"), None);
    assert_eq!(parse_seconds(""), None);
    assert_eq!(parse_seconds("."), None);
    assert_eq!(parse_seconds("-1"), None);
    assert_eq!(parse_seconds("1.2.3"), None);
    assert_eq!(parse_seconds("1 2"), None);
}

#[test]
fn rejects_values_too_large() {
    assert_eq!(parse_seconds("18446744073709.551615"), Some(u64::MAX));
    assert_eq!(parse_seconds("18446744073709.551616"), None);
    assert_eq!(parse_seconds("99999999999999999999999"), None);
}

#[test]
fn trims_unicode_space() {
    assert_eq!(trim_bounds("\u{a0} ab\t"), (2, 4));
    assert_eq!(trim_bounds("   "), (3, 3));
}

#[test]
fn parses_u32_like_std() {
    assert_eq!(parse_u32("+42", 0, 3), Some(42));
    assert_eq!(parse_u32("4294967295", 0, 10), Some(u32::MAX));
    assert_eq!(parse_u32("4294967296", 0, 10), None);
    assert_eq!(parse_u32("+", 0, 1), None);
    assert_eq!(parse_u32("-1", 0, 2), None);
    assert_eq!(parse_u32("", 0, 0), None);
    assert_eq!(parse_u32("x12y", 1, 3), Some(12));
}

#[test]
fn writes_numbers() {
    let mut s = String::from("n=");
    push_decimal(&mut s, 1203);
    assert_eq!(s, "n=1203");
    let mut s = String::new();
    push_signed_decimal(&mut s, -45);
    push_signed_decimal(&mut s, 0);
    push_signed_decimal(&mut s, i64::MIN);
    assert_eq!(s, "-450-9223372036854775808");
    let mut s = String::new();
    push_seconds(&mut s, 1_500_000);
    assert_eq!(s, "1.500000");
    let mut s = String::new();
    push_signed_seconds(&mut s, true, 2_000_001);
    assert_eq!(s, "-2.000001");
}
