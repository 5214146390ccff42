use stripe_csv::parse_amount;
use stripe_csv::Error;

fn ok(text: &str) -> i64 {
    match parse_amount(text.as_bytes()) {
        Ok(v) => v,
        Err(_) => panic!("should parse"),
    }
}

fn fails(text: &str) -> bool {
    match parse_amount(text.as_bytes()) {
        Ok(_) => false,
        Err(Error::MalformedAmount(cell)) => cell == text.as_bytes().to_vec(),
        Err(_) => false,
    }
}

#[test]
fn test_period_decimal() {
    assert_eq!(ok("1.50"), 150);
}

#[test]
fn test_comma_decimal() {
    assert_eq!(ok("1,50"), 150);
}

#[test]
fn test_zero_amount() {
    assert_eq!(ok("0.00"), 0);
}

#[test]
fn test_zero_amount_comma() {
    assert_eq!(ok("0,00"), 0);
}

#[test]
fn test_large_amount() {
    assert_eq!(ok("123.45"), 12345);
}

#[test]
fn test_large_amount_comma() {
    assert_eq!(ok("123,45"), 12345);
}

#[test]
fn test_three_decimal_places() {
    assert_eq!(ok("1.234"), 123);
}

#[test]
fn test_three_decimal_places_comma() {
    assert_eq!(ok("1,234"), 123);
}

#[test]
fn test_rounding_up() {
    assert_eq!(ok("0.126"), 13);
}

#[test]
fn test_rounding_up_comma() {
    assert_eq!(ok("0,126"), 13);
}

#[test]
fn test_rounding_down() {
    assert_eq!(ok("0.124"), 12);
}

#[test]
fn test_rounding_down_comma() {
    assert_eq!(ok("0,124"), 12);
}

#[test]
fn test_integer_amount() {
    assert_eq!(ok("42"), 4200);
}

#[test]
fn test_single_decimal() {
    assert_eq!(ok("1.5"), 150);
}

#[test]
fn test_single_decimal_comma() {
    assert_eq!(ok("1,5"), 150);
}

#[test]
fn test_invalid_format() {
    assert!(fails("invalid"));
}

#[test]
fn test_empty_string() {
    assert!(fails(""));
}

#[test]
fn test_signed_amounts() {
    assert_eq!(ok("-1,50"), -150);
    assert_eq!(ok("+2.5"), 250);
    assert_eq!(ok("-0.005"), -1);
}

#[test]
fn test_fraction_only_and_trailing_dot() {
    assert_eq!(ok(".5"), 50);
    assert_eq!(ok("5."), 500);
}

#[test]
fn test_half_rounds_away_from_zero() {
    assert_eq!(ok("0.005"), 1);
    assert_eq!(ok("0.125"), 13);
}

#[test]
fn test_leading_zeros() {
    assert_eq!(ok("0000042"), 4200);
}

#[test]
fn test_two_separators_rejected() {
    assert!(fails("1.2.3"));
    assert!(fails("1,2,3"));
    assert!(fails("1.2,3"));
}

#[test]
fn test_sign_alone_rejected() {
    assert!(fails("-"));
    assert!(fails("+"));
    assert!(fails("-."));
}

#[test]
fn test_out_of_range_rejected() {
    assert!(fails("999999999999999999999"));
    assert_eq!(ok("92233720368547758.07"), i64::MAX);
    assert!(fails("92233720368547758.08"));
    assert_eq!(ok("-92233720368547758.08"), i64::MIN);
    assert!(fails("-92233720368547758.09"));
}
