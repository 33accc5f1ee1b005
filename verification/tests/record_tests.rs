use arrayvec::CapacityError;
use onebrc_rs::arraystring128::ArrayString128;
use onebrc_rs::reading::parse_reading;
use onebrc_rs::reading::UNITS_PER_DEGREE;
use onebrc_rs::record::split_first_line;
use onebrc_rs::record::parse_line;
use onebrc_rs::record::Skipped;
use std::str::FromStr;

#[test]
fn reading_keeps_four_fraction_digits() {
    assert_eq!(parse_reading(b"12.0"), Some(120_000));
    assert_eq!(parse_reading(b"42.55"), Some(425_500));
    assert_eq!(parse_reading(b"-0.5"), Some(-5_000));
    assert_eq!(parse_reading(b"7"), Some(70_000));
    assert_eq!(parse_reading(b"1.23456"), Some(12_346));
    assert_eq!(parse_reading(b"1.23450"), Some(12_345));
    assert_eq!(parse_reading(b"1.23446"), Some(12_344));
    assert_eq!(parse_reading(b".5"), Some(5_000));
    assert_eq!(parse_reading(b"5."), Some(50_000));
}

#[test]
fn reading_rejects_what_is_no_decimal_number() {
    assert_eq!(parse_reading(b""), None);
    assert_eq!(parse_reading(b"-"), None);
    assert_eq!(parse_reading(b"."), None);
    assert_eq!(parse_reading(b"1.2.3"), None);
    assert_eq!(parse_reading(b"abc"), None);
    assert_eq!(parse_reading(b"1e3"), None);
    assert_eq!(parse_reading(b"+7"), None);
    assert_eq!(parse_reading(b"-+7"), None);
    assert_eq!(parse_reading(b"7-"), None);
    assert_eq!(parse_reading(b"infinity"), None);
    assert_eq!(parse_reading(b"--1"), None);
    assert_eq!(parse_reading(b"1 2"), None);
}

#[test]
fn reading_range_is_that_of_i64() {
    assert_eq!(parse_reading(b"922337203685477.5807"), Some(i64::MAX));
    assert_eq!(parse_reading(b"-922337203685477.5807"), Some(-i64::MAX));
    assert_eq!(parse_reading(b"922337203685477.5808"), None);
    assert_eq!(parse_reading(b"99999999999999999999999999999999999999999999"), None);
    assert_eq!(parse_reading(b"000000000000000000000000000000000000001.5"), Some(15_000));
}

#[test]
fn line_is_split_at_the_first_delimiter() {
    let (key, value) = parse_line("Hamburg;12.0\n").unwrap();
    assert_eq!(key.as_str(), "Hamburg");
    assert_eq!(value, 120_000);
    assert_eq!(parse_line("a;b;1").unwrap_err(), Skipped::UnparsableValue);
    let (key, value) = parse_line(" St. John's ;  -3.25 \r\n").unwrap();
    assert_eq!(key.as_str(), " St. John's ");
    assert_eq!(value, -32_500);
    assert_eq!(key, ArrayString128::from_str(" St. John's ").unwrap());
}

#[test]
fn reading_of_whole_degrees_is_a_multiple_of_the_scale() {
    assert_eq!(parse_reading(b"12"), Some(12 * UNITS_PER_DEGREE));
    assert_eq!(parse_reading(b"-99.9"), Some(-999 * UNITS_PER_DEGREE / 10));
    assert_eq!(parse_reading(b"0"), Some(0));
    assert_eq!(parse_reading(b"-0.0"), Some(0));
    assert_eq!(parse_reading(b"0.00009"), Some(1));
    assert_eq!(parse_reading(b"-0.00019"), Some(-1));
    assert_eq!(parse_reading(b"-0.00001"), Some(-1));
    assert_eq!(parse_reading(b"0.00000"), Some(0));
}

#[test]
fn reading_with_dropped_digits_stands_off_multiples_of_five() {
    assert_eq!(parse_reading(b"0.0050001"), Some(51));
    assert_eq!(parse_reading(b"0.0050000"), Some(50));
    assert_eq!(parse_reading(b"0.005"), Some(50));
    assert_eq!(parse_reading(b"-0.0149999"), Some(-149));
    assert_eq!(parse_reading(b"-0.0150000001"), Some(-151));
    assert_eq!(parse_reading(b"7.00000000000000000000000000001"), Some(70_001));
    assert_eq!(parse_reading(b"7.00010000000000000000000000000"), Some(70_001));
    assert_eq!(parse_reading(b"2.99999"), Some(29_999));
    assert_eq!(parse_reading(b"922337203685477.58070"), Some(i64::MAX));
    assert_eq!(parse_reading(b"922337203685477.58071"), Some(i64::MAX));
    assert_eq!(parse_reading(b"922337203685477.58051"), Some(9_223_372_036_854_775_806));
}

#[test]
fn name_is_parsed_from_text() {
    let name: ArrayString128 = "Hamburg".parse().unwrap();
    assert_eq!(name.as_str(), "Hamburg");
    assert_eq!(name.len(), 7);
    let long = "x".repeat(129);
    assert_eq!(long.parse::<ArrayString128>(), Err(CapacityError::new(())));
    assert_eq!(ArrayString128::from_str(&long), Err(CapacityError::new(())));
}

#[test]
fn line_is_classified_by_the_first_reason_to_skip_it() {
    assert_eq!(parse_line("#;1.0").unwrap_err(), Skipped::Comment);
    assert_eq!(parse_line("#").unwrap_err(), Skipped::Comment);
    assert_eq!(parse_line(" #;1.0").unwrap().1, 10_000);
    assert_eq!(parse_line("").unwrap_err(), Skipped::MissingDelimiter);
    assert_eq!(parse_line("Hamburg 12.0").unwrap_err(), Skipped::MissingDelimiter);
    let long = format!("{};", "y".repeat(129));
    assert_eq!(parse_line(&long).unwrap_err(), Skipped::OversizedKey);
    assert_eq!(parse_line("Hamburg;").unwrap_err(), Skipped::UnparsableValue);
    assert_eq!(parse_line("Hamburg; \t ").unwrap_err(), Skipped::UnparsableValue);
    assert_eq!(parse_line("Hamburg;1,5").unwrap_err(), Skipped::UnparsableValue);
    assert_eq!(parse_line("Hamburg;inf").unwrap_err(), Skipped::UnparsableValue);
    assert_eq!(parse_line(";1").unwrap().0.as_str(), "");
}

#[test]
fn text_is_split_after_the_first_newline() {
    assert_eq!(split_first_line("a;1\nb;2\n"), ("a;1\n", "b;2\n"));
    assert_eq!(split_first_line("b;2"), ("b;2", ""));
    assert_eq!(split_first_line("\n\n"), ("\n", "\n"));
    assert_eq!(split_first_line(""), ("", ""));
    assert_eq!(split_first_line("\u{e9};1\n\u{e9}"), ("\u{e9};1\n", "\u{e9}"));
}
