use transaction_engine::FractionalAmount;
use transaction_engine::FractionalAmountParseError;

#[test]
fn parse_truncates_instead_of_rounding() {
    let long = FractionalAmount::parse("1.5000000000001").unwrap();
    let short = FractionalAmount::parse("1.5").unwrap();
    assert_eq!(long, short);
    assert_eq!(long.0, 15000);
}

#[test]
fn parse_discards_fifth_fractional_digit() {
    assert_eq!(FractionalAmount::parse("0.25009").unwrap().0, 2500);
    assert_eq!(FractionalAmount::parse("0.25").unwrap().0, 2500);
    assert_eq!(FractionalAmount::parse("0.2500").unwrap().0, 2500);
    assert_eq!(FractionalAmount::parse("0.250099999999999999999999").unwrap().0, 2500);
}

#[test]
fn parse_reads_plain_integers() {
    assert_eq!(FractionalAmount::parse("7").unwrap().0, 70000);
    assert_eq!(FractionalAmount::parse("7.").unwrap().0, 70000);
    assert_eq!(FractionalAmount::parse("0").unwrap().0, 0);
    assert_eq!(FractionalAmount::parse("321.5468").unwrap().0, 3215468);
}

#[test]
fn parse_handles_signs() {
    assert_eq!(FractionalAmount::parse("+2.5").unwrap().0, 25000);
    assert_eq!(FractionalAmount::parse("-1").unwrap().0, -10000);
}

#[test]
fn parse_rejects_letters_in_fraction() {
    assert_eq!(
        FractionalAmount::parse("1.5a3"),
        Err(FractionalAmountParseError::NonDigitInFractionalPortion)
    );
    // even past the fourth digit, every character must still be a digit
    assert_eq!(
        FractionalAmount::parse("0.25009x"),
        Err(FractionalAmountParseError::NonDigitInFractionalPortion)
    );
    // only the first dot splits; a second dot is no digit
    assert_eq!(
        FractionalAmount::parse("1.2.3"),
        Err(FractionalAmountParseError::NonDigitInFractionalPortion)
    );
}

#[test]
fn parse_rejects_bad_integer_portions() {
    for s in ["", ".", ".5", "abc", "12a", "--3", "-", "+"] {
        assert_eq!(
            FractionalAmount::parse(s),
            Err(FractionalAmountParseError::InvalidIntegerPortion),
            "{s:?} should fail on its integer portion"
        );
    }
}

#[test]
fn parse_checks_the_representation_bounds() {
    assert_eq!(FractionalAmount::parse("922337203685477.5807").unwrap().0, i64::MAX);
    assert_eq!(
        FractionalAmount::parse("922337203685477.5808"),
        Err(FractionalAmountParseError::InvalidIntegerPortion)
    );
    assert_eq!(
        FractionalAmount::parse("9223372036854775808"),
        Err(FractionalAmountParseError::InvalidIntegerPortion)
    );
}

#[test]
fn renders_four_fractional_digits() {
    assert_eq!(FractionalAmount(15000).to_string(), "1.5000");
    assert_eq!(FractionalAmount(0).to_string(), "0.0000");
    assert_eq!(FractionalAmount(2500).to_string(), "0.2500");
    assert_eq!(FractionalAmount(3215468).to_string(), "321.5468");
}

#[test]
fn renders_negative_values_with_one_sign() {
    assert_eq!(FractionalAmount(-2500).to_string(), "-0.2500");
    assert_eq!(FractionalAmount(-12345).to_string(), "-1.2345");
    assert_eq!(FractionalAmount(-10000).to_string(), "-1.0000");
}

#[test]
fn renders_the_extremes() {
    assert_eq!(FractionalAmount(i64::MAX).to_string(), "922337203685477.5807");
    assert_eq!(FractionalAmount(i64::MIN).to_string(), "-922337203685477.5808");
}

#[test]
fn round_trips_canonical_strings_of_non_negative_values() {
    // Balances can be negative, but input amounts are non-negative by rule,
    // and the parser reads the fractional digits as a positive contribution:
    // only non-negative values round-trip through the canonical rendering.
    for v in [0i64, 1, 2500, 15000, 123456789, i64::MAX] {
        let rendered = FractionalAmount(v).to_string();
        assert_eq!(FractionalAmount::parse(&rendered).unwrap().0, v, "{rendered}");
    }
}

#[test]
fn default_amount_is_zero() {
    assert_eq!(FractionalAmount::default().0, 0);
}
