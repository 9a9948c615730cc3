// The library carries amounts as signed integers in thousandths of a naira
// (one tenth of a kobo); kobo counts are plain integers.
use naira_format::{
    format_kobo_to_naira, format_naira, format_naira_compact, format_naira_to_kobo,
    format_to_word, format_with_commas, parse_naira, ParseError,
};

#[test]
fn test_format_naira() {
    assert_eq!(format_naira(1_234_567_890), "₦1,234,567.89");
    assert_eq!(format_naira(-55_000_000), "₦-55,000.00");
}

#[test]
fn test_commas() {
    assert_eq!(format_with_commas(1), "1");
    assert_eq!(format_with_commas(1234567), "1,234,567");
    assert_eq!(format_with_commas(-55000), "-55,000");
}

#[test]
fn test_format_kobo_to_naira() {
    assert_eq!(format_kobo_to_naira(1), "₦0.01");
    assert_eq!(format_kobo_to_naira(50), "₦0.50");
    assert_eq!(format_kobo_to_naira(100), "₦1.00");
    assert_eq!(format_kobo_to_naira(150000), "₦1,500.00");
    assert_eq!(format_kobo_to_naira(-7550), "₦-75.50");
}

#[test]
fn test_format_naira_to_kobo() {
    assert_eq!(format_naira_to_kobo(10), "1");
    assert_eq!(format_naira_to_kobo(1_234_567_890), "123456789");
    assert_eq!(format_naira_to_kobo(-75_500), "-7550");
}

#[test]
fn test_format_naira_compact() {
    assert_eq!(format_naira_compact(950_000), "₦950");
    assert_eq!(format_naira_compact(1_200_000), "₦1.2K");
    assert_eq!(format_naira_compact(2_500_000_000), "₦2.5M");
}

#[test]
fn test_parse_naira() {
    assert_eq!(parse_naira("₦1,500.50"), Ok(1_500_500));
    assert_eq!(parse_naira("1500"), Ok(1_500_000));
    assert_eq!(parse_naira("1,234"), Ok(1_234_000));
    assert_eq!(parse_naira("-₦75.50"), Ok(-75_500));
    assert_eq!(parse_naira(""), Err(ParseError::EmptyInput));
    assert_eq!(parse_naira("abc"), Err(ParseError::InvalidFormat));
}

#[test]
fn test_format_to_word_basic() {
    let result = format_to_word(1_250_500).unwrap();
    assert_eq!(
        result,
        "one thousand two hundred and fifty Naira, fifty Kobo Only"
    );
}

#[test]
fn test_format_to_word_no_kobo() {
    let result = format_to_word(100_000).unwrap();
    assert_eq!(result, "one hundred Naira Only");
}

#[test]
fn test_format_to_word_singular() {
    let result = format_to_word(1_010).unwrap();
    assert_eq!(result, "one Naira, one Kobo Only");
}
