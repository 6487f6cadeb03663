use financials::money::{format_cents, format_with_commas, parse_dollars};

// ── parse_dollars ──

#[test]
fn parse_dollars_positive() {
    assert_eq!(parse_dollars("$1,234.56").unwrap(), 123456);
}

#[test]
fn parse_dollars_negative() {
    assert_eq!(parse_dollars("-$1,234.56").unwrap(), -123456);
}

#[test]
fn parse_dollars_accounting_parens() {
    assert_eq!(parse_dollars("($1,234.56)").unwrap(), -123456);
}

#[test]
fn parse_dollars_plain_number() {
    assert_eq!(parse_dollars("10000").unwrap(), 1000000);
}

#[test]
fn parse_dollars_negative_plain() {
    assert_eq!(parse_dollars("-150000").unwrap(), -15000000);
}

#[test]
fn parse_dollars_empty() {
    assert!(parse_dollars("").is_err());
}

#[test]
fn parse_dollars_zero() {
    assert_eq!(parse_dollars("$0.00").unwrap(), 0);
    assert_eq!(parse_dollars("0").unwrap(), 0);
}

#[test]
fn parse_dollars_euro() {
    // Euro format is not specially handled; after stripping € and ,
    // "€1.234,56" becomes "1.23456" which is ~123 cents
    assert_eq!(parse_dollars("€1.234,56").unwrap(), 123);
}

#[test]
fn parse_dollars_pound() {
    assert_eq!(parse_dollars("£5,000.00").unwrap(), 500000);
}

#[test]
fn parse_dollars_whitespace() {
    assert_eq!(parse_dollars("  $1,234.56  ").unwrap(), 123456);
}

#[test]
fn parse_dollars_just_currency_symbol() {
    assert!(parse_dollars("$").is_err());
    assert!(parse_dollars("€").is_err());
}

#[test]
fn parse_dollars_large_number() {
    assert_eq!(parse_dollars("$1,000,000.00").unwrap(), 100000000);
}

#[test]
fn parse_dollars_error_messages() {
    assert_eq!(parse_dollars("   ").unwrap_err(), "Invalid amount: (empty)");
    assert_eq!(parse_dollars(" abc ").unwrap_err(), "Invalid amount: abc");
}

#[test]
fn parse_dollars_rounds_half_away_from_zero() {
    assert_eq!(parse_dollars("0.005").unwrap(), 1);
    assert_eq!(parse_dollars("-0.005").unwrap(), -1);
    assert_eq!(parse_dollars("1.234").unwrap(), 123);
}

#[test]
fn parse_dollars_exponents_and_words() {
    assert_eq!(parse_dollars("1e2").unwrap(), 10000);
    // Minus signs are dropped before the number is read, also in an exponent.
    assert_eq!(parse_dollars("2.5E-1").unwrap(), 2500);
    assert_eq!(parse_dollars("nan").unwrap(), 0);
    assert_eq!(parse_dollars("inf").unwrap(), i64::MAX);
    assert_eq!(parse_dollars("-Infinity").unwrap(), -i64::MAX);
}

// ── format_cents ──

#[test]
fn format_cents_positive() {
    assert_eq!(format_cents(123456), "$1,234.56");
}

#[test]
fn format_cents_negative() {
    assert_eq!(format_cents(-123456), "-$1,234.56");
}

#[test]
fn format_cents_zero() {
    assert_eq!(format_cents(0), "$0.00");
}

#[test]
fn format_cents_millions() {
    assert_eq!(format_cents(123456789), "$1,234,567.89");
}

#[test]
fn format_cents_small() {
    assert_eq!(format_cents(1), "$0.01");
    assert_eq!(format_cents(99), "$0.99");
}

#[test]
fn format_cents_roundtrip() {
    for &cents in &[0, 1, 99, 100, 999, 123456, -100, -999999] {
        assert_eq!(parse_dollars(&format_cents(cents)).unwrap(), cents);
    }
}

#[test]
fn format_cents_roundtrip_extremes() {
    for &cents in &[i64::MAX, -i64::MAX, 100000000000, -5] {
        assert_eq!(parse_dollars(&format_cents(cents)).unwrap(), cents);
    }
}

// ── format_with_commas ──

#[test]
fn format_with_commas_zero() {
    assert_eq!(format_with_commas(0), "0");
}

#[test]
fn format_with_commas_one() {
    assert_eq!(format_with_commas(1), "1");
}

#[test]
fn format_with_commas_three_digits() {
    assert_eq!(format_with_commas(999), "999");
}

#[test]
fn format_with_commas_thousands() {
    assert_eq!(format_with_commas(1000), "1,000");
}

#[test]
fn format_with_commas_millions() {
    assert_eq!(format_with_commas(1000000), "1,000,000");
}

#[test]
fn format_with_commas_negative_drops_sign() {
    assert_eq!(format_with_commas(-1234567), "1,234,567");
}

#[test]
fn parse_dollars_rounds_the_written_decimal() {
    assert_eq!(parse_dollars("1.005"), Ok(101));
    assert_eq!(parse_dollars("0.015"), Ok(2));
    assert_eq!(parse_dollars("-1.005"), Ok(-101));
}

#[test]
fn parse_dollars_minus_and_parentheses_negate_alike() {
    for t in ["12.5", "$1,234.56", "0", "1e3", "inf"] {
        let c = parse_dollars(t).unwrap();
        assert!(c >= 0);
        assert_eq!(parse_dollars(&format!("-{}", t)), Ok(-c));
        assert_eq!(parse_dollars(&format!("({})", t)), Ok(-c));
    }
}
