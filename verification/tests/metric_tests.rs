use shardagg::parse_metric;

#[test]
fn parses_plain_fractions() {
    assert_eq!(parse_metric("0.5"), Some(500_000));
    assert_eq!(parse_metric("-0.2"), Some(-200_000));
    assert_eq!(parse_metric("0.3"), Some(300_000));
}

#[test]
fn parses_integers() {
    assert_eq!(parse_metric("3"), Some(3_000_000));
    assert_eq!(parse_metric("-7"), Some(-7_000_000));
    assert_eq!(parse_metric("0"), Some(0));
    assert_eq!(parse_metric("-0"), Some(0));
}

#[test]
fn truncates_past_six_fractional_digits() {
    assert_eq!(parse_metric("12.3456789"), Some(12_345_678));
    assert_eq!(parse_metric("-0.0000005"), Some(0));
    assert_eq!(parse_metric("0.123456"), Some(123_456));
}

#[test]
fn rejects_non_decimal_shapes() {
    assert_eq!(parse_metric(""), None);
    assert_eq!(parse_metric("-"), None);
    assert_eq!(parse_metric("."), None);
    assert_eq!(parse_metric("1."), None);
    assert_eq!(parse_metric(".5"), None);
    assert_eq!(parse_metric("1e-7"), None);
    assert_eq!(parse_metric("1.5e20"), None);
    assert_eq!(parse_metric("abc"), None);
    assert_eq!(parse_metric("1 2"), None);
}

#[test]
fn rejects_oversized_integer_part() {
    assert_eq!(parse_metric("999999999"), Some(999_999_999_000_000));
    assert_eq!(parse_metric("1000000000"), None);
}
