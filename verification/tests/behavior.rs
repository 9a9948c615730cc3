// Edge cases, tier boundaries, round trips and error cases, all on amounts
// in thousandths of a naira.
use naira_format::{
    compose_phrase, format_kobo_to_naira, format_naira, format_naira_compact,
    format_naira_to_kobo, format_to_word, format_with_commas, parse_naira, ParseError,
};

#[test]
fn grouping_counts() {
    assert_eq!(format_with_commas(0), "0");
    assert_eq!(format_with_commas(999), "999");
    assert_eq!(format_with_commas(1000), "1,000");
    assert_eq!(format_with_commas(100000), "100,000");
    assert_eq!(format_with_commas(1000000), "1,000,000");
    assert_eq!(format_with_commas(i64::MAX), "9,223,372,036,854,775,807");
    assert_eq!(format_with_commas(i64::MIN), "-9,223,372,036,854,775,808");
}

#[test]
fn sign_symmetry_scenarios() {
    let pos = format_naira(1_234_567_890);
    let neg = format_naira(-1_234_567_890);
    let mut cs: Vec<char> = pos.chars().collect();
    cs.insert(1, '-');
    let expected: String = cs.into_iter().collect();
    assert_eq!(neg, expected);
    assert_eq!(format_naira(0), "₦0.00");
}

#[test]
fn compact_tier_boundaries() {
    // 999.999 naira still has no suffix (it rounds up within the tier);
    // exactly 1,000 starts the K tier
    assert_eq!(format_naira_compact(999_999), "₦1,000");
    assert_eq!(format_naira_compact(1_000_000), "₦1K");
    // 999,999 naira is still K; exactly a million is M
    assert_eq!(format_naira_compact(999_999_000), "₦1000K");
    assert_eq!(format_naira_compact(1_000_000_000), "₦1M");
    // a billion starts the B tier
    assert_eq!(format_naira_compact(999_999_999_999), "₦1000M");
    assert_eq!(format_naira_compact(1_000_000_000_000), "₦1B");
    assert_eq!(format_naira_compact(950_000), "₦950");
    assert_eq!(format_naira_compact(999_994), "₦999.99");
    assert_eq!(format_naira_compact(-1_200_000), "₦-1.2K");
    assert_eq!(format_naira_compact(1_250_000), "₦1.3K");
}

#[test]
fn minor_unit_round_trip() {
    for &k in &[0i64, 1, -1, 7550, -7550, 150000, 99, -100, 123456789] {
        let formatted = format_kobo_to_naira(k);
        let parsed = parse_naira(&formatted).unwrap();
        assert_eq!(parsed, k * 10);
        assert_eq!(format_naira_to_kobo(parsed), k.to_string());
    }
}

#[test]
fn parse_of_formatted_amounts() {
    for &a in &[
        0i64,
        5,
        994,
        999,
        1000,
        1_500_500,
        -75_500,
        1_234_567_894,
        -999_999_999_999,
    ] {
        let parsed = parse_naira(&format_naira(a)).unwrap();
        let mag = a.abs();
        // the amount rounded to whole kobo, half away from zero
        let expect = if a >= 0 { ((mag + 5) / 10) * 10 } else { -(((mag + 5) / 10) * 10) };
        assert_eq!(parsed, expect);
    }
}

#[test]
fn fraction_rounding() {
    // two-decimal rounding is half away from zero
    assert_eq!(format_naira(1_005), "₦1.01");
    assert_eq!(format_naira(1_004), "₦1.00");
    assert_eq!(format_naira(-1_005), "₦-1.01");
    // a fraction that rounds up to a whole naira carries
    assert_eq!(format_naira(999), "₦1.00");
    assert_eq!(format_naira(999_999), "₦1,000.00");
    assert_eq!(format_naira(-999_995), "₦-1,000.00");
    assert_eq!(format_naira_to_kobo(15), "2");
    assert_eq!(format_naira_to_kobo(14), "1");
    assert_eq!(format_naira_to_kobo(-15), "-2");
}

#[test]
fn parse_shapes() {
    assert_eq!(parse_naira("  ₦1,500.50  "), Ok(1_500_500));
    assert_eq!(parse_naira("\u{00a0}₦5\u{2028}"), Ok(5_000));
    assert_eq!(parse_naira("₦-55,000.00"), Ok(-55_000_000));
    assert_eq!(parse_naira(".5"), Ok(500));
    assert_eq!(parse_naira("5."), Ok(5_000));
    assert_eq!(parse_naira("0.0005"), Ok(1));
    assert_eq!(parse_naira("0.00049"), Ok(0));
    assert_eq!(parse_naira("-0.0005"), Ok(-1));
    assert_eq!(parse_naira("1,2,3"), Ok(123_000));
    // a minus before the symbol and one after it cancel out
    assert_eq!(parse_naira("--5"), Ok(5_000));
    assert_eq!(parse_naira("₦₦5"), Ok(5_000));
}

#[test]
fn parse_errors() {
    assert_eq!(parse_naira("   "), Err(ParseError::EmptyInput));
    assert_eq!(parse_naira("\t\n"), Err(ParseError::EmptyInput));
    // the whole Unicode white-space set counts as blank
    assert_eq!(parse_naira("\u{000b}\u{000c}"), Err(ParseError::EmptyInput));
    assert_eq!(parse_naira("\u{00a0}\u{2003}\u{3000}"), Err(ParseError::EmptyInput));
    assert_eq!(parse_naira("-"), Err(ParseError::InvalidFormat));
    assert_eq!(parse_naira("₦"), Err(ParseError::InvalidFormat));
    assert_eq!(parse_naira("."), Err(ParseError::InvalidFormat));
    assert_eq!(parse_naira("1.2.3"), Err(ParseError::InvalidFormat));
    assert_eq!(parse_naira("12e3"), Err(ParseError::InvalidFormat));
    assert_eq!(parse_naira("+5"), Err(ParseError::InvalidFormat));
    // out of the fixed-point range
    assert_eq!(
        parse_naira("99999999999999999999"),
        Err(ParseError::InvalidFormat)
    );
}

#[test]
fn words_carry() {
    // a kobo remainder that rounds up to a whole naira carries into it
    assert_eq!(format_to_word(1_999).unwrap(), "two Naira Only");
    assert_eq!(format_to_word(999_995).unwrap(), "one thousand Naira Only");
    // ... also below a negative floor: -0.005 naira is zero naira even
    assert_eq!(format_to_word(-5).unwrap(), "zero Naira Only");
}

#[test]
fn phrase_composition() {
    assert_eq!(compose_phrase("one", 1, "one"), "one Naira, one Kobo Only");
    assert_eq!(compose_phrase("ten", 0, ""), "ten Naira Only");
}
