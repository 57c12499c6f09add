use barowiki::decimal::{format_decimal, parse_decimal, times100_round, Decimal};
use barowiki::text::{
    digits_value, i32_to_string, join_strings, parse_i32, split_char, str_eq, str_le,
    u64_to_string,
};

#[test]
fn parse_i32_reads_plain_numbers() {
    assert_eq!(parse_i32("42"), Some(42));
    assert_eq!(parse_i32("0"), Some(0));
    assert_eq!(parse_i32("-7"), Some(-7));
    assert_eq!(parse_i32("+3"), Some(3));
    assert_eq!(parse_i32("2147483647"), Some(2147483647));
    assert_eq!(parse_i32("-2147483648"), Some(-2147483648));
}

#[test]
fn parse_i32_rejects_malformed_numbers() {
    assert_eq!(parse_i32(""), None);
    assert_eq!(parse_i32("x"), None);
    assert_eq!(parse_i32("1 2"), None);
    assert_eq!(parse_i32("2147483648"), None);
    assert_eq!(parse_i32("-2147483649"), None);
    assert_eq!(parse_i32("1.5"), None);
}

#[test]
fn digits_value_reads_digit_strings() {
    assert_eq!(digits_value("0012"), Some(12));
    assert_eq!(digits_value("18446744073709551615"), Some(u64::MAX));
    assert_eq!(digits_value("18446744073709551616"), None);
}

#[test]
fn integers_render_in_decimal() {
    assert_eq!(u64_to_string(0).as_str(), "0");
    assert_eq!(u64_to_string(907).as_str(), "907");
    assert_eq!(i32_to_string(-123).as_str(), "-123");
    assert_eq!(i32_to_string(i32::MIN).as_str(), "-2147483648");
}

#[test]
fn split_keeps_empty_pieces() {
    let pieces = split_char("a,b,,c", ',');
    let got: Vec<&str> = pieces.iter().map(|s| s.as_str()).collect();
    assert_eq!(got, vec!["a", "b", "", "c"]);
    let single = split_char("", ',');
    let got: Vec<&str> = single.iter().map(|s| s.as_str()).collect();
    assert_eq!(got, vec![""]);
}

#[test]
fn join_inserts_separators_between_pieces() {
    let parts = vec!["x".to_string(), "y".to_string(), "z".to_string()];
    assert_eq!(join_strings(&parts, " <br> ").as_str(), "x <br> y <br> z");
    let empty: Vec<String> = vec![];
    assert_eq!(join_strings(&empty, ",").as_str(), "");
}

#[test]
fn string_comparisons_are_lexicographic() {
    assert!(str_eq("abc", "abc"));
    assert!(!str_eq("abc", "abd"));
    assert!(str_le("abc", "abd"));
    assert!(str_le("ab", "abc"));
    assert!(!str_le("b", "abc"));
}

#[test]
fn decimal_parses_canonical_values() {
    assert_eq!(parse_decimal("1.0"), Some(Decimal { neg: false, mant: 1, scale: 0 }));
    assert_eq!(parse_decimal("0.85"), Some(Decimal { neg: false, mant: 85, scale: 2 }));
    assert_eq!(parse_decimal("1.50"), Some(Decimal { neg: false, mant: 15, scale: 1 }));
    assert_eq!(parse_decimal("-2.5"), Some(Decimal { neg: true, mant: 25, scale: 1 }));
    assert_eq!(parse_decimal("80"), Some(Decimal { neg: false, mant: 80, scale: 0 }));
    assert_eq!(parse_decimal("-0.0"), Some(Decimal { neg: false, mant: 0, scale: 0 }));
}

#[test]
fn decimal_accepts_bare_point_forms() {
    assert_eq!(parse_decimal("1."), Some(Decimal { neg: false, mant: 1, scale: 0 }));
    assert_eq!(parse_decimal(".5"), Some(Decimal { neg: false, mant: 5, scale: 1 }));
    assert_eq!(parse_decimal("-.5"), Some(Decimal { neg: true, mant: 5, scale: 1 }));
    assert_eq!(parse_decimal(".50"), Some(Decimal { neg: false, mant: 5, scale: 1 }));
}

#[test]
fn decimal_rejects_malformed_values() {
    assert_eq!(parse_decimal(""), None);
    assert_eq!(parse_decimal("."), None);
    assert_eq!(parse_decimal("-."), None);
    assert_eq!(parse_decimal("abc"), None);
    assert_eq!(parse_decimal("1.2.3"), None);
    assert_eq!(parse_decimal("0.12345678901"), None);
}

#[test]
fn decimal_formats_with_one_fraction_digit_at_least() {
    let d = parse_decimal("0.85").unwrap();
    assert_eq!(format_decimal(&d).as_str(), "0.85");
    let d = parse_decimal("80").unwrap();
    assert_eq!(format_decimal(&d).as_str(), "80.0");
    let d = parse_decimal("-2.5").unwrap();
    assert_eq!(format_decimal(&d).as_str(), "-2.5");
    let d = parse_decimal("1.0").unwrap();
    assert_eq!(format_decimal(&d).as_str(), "1.0");
}

#[test]
fn commonness_percentages_round_half_away_from_zero() {
    let half = parse_decimal("0.5").unwrap();
    assert_eq!(times100_round(&half), Some((false, 50)));
    let eighth = parse_decimal("0.125").unwrap();
    assert_eq!(times100_round(&eighth), Some((false, 13)));
    let neg = parse_decimal("-0.125").unwrap();
    assert_eq!(times100_round(&neg), Some((true, 13)));
    let whole = parse_decimal("2").unwrap();
    assert_eq!(times100_round(&whole), Some((false, 200)));
}
