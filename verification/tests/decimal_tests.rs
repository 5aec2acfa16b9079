use forecast_cache::decimal::TempValue;
use forecast_cache::decimal::parse_decimal;

fn tv(neg: bool, whole: u64, frac: u64, scale: u32) -> TempValue {
    TempValue { neg, whole, frac, scale }
}

#[test]
fn parses_plain_integer() {
    assert_eq!(parse_decimal("5".as_bytes()), Some(tv(false, 5, 0, 0)));
    assert_eq!(parse_decimal("17".as_bytes()), Some(tv(false, 17, 0, 0)));
}

#[test]
fn parses_fraction() {
    assert_eq!(parse_decimal("17.2".as_bytes()), Some(tv(false, 17, 2, 1)));
    assert_eq!(parse_decimal("0.005".as_bytes()), Some(tv(false, 0, 5, 3)));
}

#[test]
fn parses_negative() {
    assert_eq!(parse_decimal("-3.5".as_bytes()), Some(tv(true, 3, 5, 1)));
    assert_eq!(parse_decimal("-40".as_bytes()), Some(tv(true, 40, 0, 0)));
}

#[test]
fn rejects_malformed() {
    assert_eq!(parse_decimal("".as_bytes()), None);
    assert_eq!(parse_decimal("-".as_bytes()), None);
    assert_eq!(parse_decimal("abc".as_bytes()), None);
    assert_eq!(parse_decimal("1.".as_bytes()), None);
    assert_eq!(parse_decimal(".5".as_bytes()), None);
    assert_eq!(parse_decimal("1.2.3".as_bytes()), None);
    assert_eq!(parse_decimal("+5".as_bytes()), None);
}

#[test]
fn rejects_oversized() {
    // An integer part beyond the machine word, and a fraction beyond the cap.
    assert_eq!(parse_decimal("99999999999999999999".as_bytes()), None);
    assert_eq!(parse_decimal("1.0123456789".as_bytes()), None);
}

#[test]
fn keeps_leading_zero_fraction() {
    // "0.50" keeps its scale: two fraction digits, value fifty.
    assert_eq!(parse_decimal("0.50".as_bytes()), Some(tv(false, 0, 50, 2)));
}
