use file_size::errors::SizeError;
use file_size::magnitude::parse_magnitude;
use file_size::magnitude::Magnitude;
use file_size::magnitude::MagnitudeError;
use file_size::unit::parse_unit;
use file_size::unit::SizeUnit;

fn mag(s: &str) -> Magnitude {
    parse_magnitude(s).unwrap()
}

#[test]
fn parses_integer() {
    let m = mag("5");
    assert_eq!(m.int_part, 5);
    assert_eq!(m.frac9, 0);
    assert!(!m.huge);
}

#[test]
fn parses_fraction() {
    let m = mag("4.35");
    assert_eq!(m.int_part, 4);
    assert_eq!(m.frac9, 350_000_000);
    assert!(!m.huge);
}

#[test]
fn parses_leading_dot() {
    let m = mag(".5");
    assert_eq!(m.int_part, 0);
    assert_eq!(m.frac9, 500_000_000);
}

#[test]
fn parses_trailing_dot() {
    let m = mag("5.");
    assert_eq!(m.int_part, 5);
    assert_eq!(m.frac9, 0);
}

#[test]
fn parses_plus_sign() {
    let m = mag("+7.25");
    assert_eq!(m.int_part, 7);
    assert_eq!(m.frac9, 250_000_000);
}

#[test]
fn minus_zero_is_not_negative() {
    let m = mag("-0.000");
    assert_eq!(m.int_part, 0);
    assert_eq!(m.frac9, 0);
    assert!(!m.huge);
}

#[test]
fn rejects_empty_and_signs_alone() {
    assert_eq!(parse_magnitude("").unwrap_err(), MagnitudeError::NotNumeric);
    assert_eq!(parse_magnitude("-").unwrap_err(), MagnitudeError::NotNumeric);
    assert_eq!(parse_magnitude("+").unwrap_err(), MagnitudeError::NotNumeric);
    assert_eq!(parse_magnitude(".").unwrap_err(), MagnitudeError::NotNumeric);
}

#[test]
fn rejects_non_numeric_text() {
    assert_eq!(parse_magnitude("abc").unwrap_err(), MagnitudeError::NotNumeric);
    assert_eq!(parse_magnitude("1e3").unwrap_err(), MagnitudeError::NotNumeric);
    assert_eq!(parse_magnitude("1.2.3").unwrap_err(), MagnitudeError::NotNumeric);
    assert_eq!(parse_magnitude("5 ").unwrap_err(), MagnitudeError::NotNumeric);
}

#[test]
fn rejects_non_ascii_digits() {
    assert_eq!(parse_magnitude("５").unwrap_err(), MagnitudeError::NotNumeric);
    assert_eq!(parse_magnitude("1٢3").unwrap_err(), MagnitudeError::NotNumeric);
}

#[test]
fn rejects_units_with_spaces_or_accents() {
    assert_eq!(parse_unit(" kb").unwrap_err(), SizeError::InvalidUnitError);
    assert_eq!(parse_unit("kb ").unwrap_err(), SizeError::InvalidUnitError);
    assert_eq!(parse_unit("ｋb").unwrap_err(), SizeError::InvalidUnitError);
}

#[test]
fn rejects_negative_magnitudes() {
    assert_eq!(parse_magnitude("-5").unwrap_err(), MagnitudeError::Negative);
    assert_eq!(parse_magnitude("-0.5").unwrap_err(), MagnitudeError::Negative);
}

#[test]
fn negative_tail_beyond_ninth_digit_is_detected() {
    assert_eq!(
        parse_magnitude("-0.0000000001").unwrap_err(),
        MagnitudeError::Negative
    );
}

#[test]
fn long_fraction_truncates_to_nine_digits() {
    let m = mag("0.12345678999");
    assert_eq!(m.int_part, 0);
    assert_eq!(m.frac9, 123_456_789);
}

#[test]
fn huge_integer_part_is_flagged() {
    let m = mag("99999999999999999999");
    assert!(m.huge);
}

#[test]
fn largest_exact_integer_part() {
    let m = mag("18446744073709551615");
    assert!(!m.huge);
    assert_eq!(m.int_part, u64::MAX);
}

#[test]
fn recognizes_units() {
    assert_eq!(parse_unit("bytes").unwrap(), SizeUnit::Bytes);
    assert_eq!(parse_unit("kb").unwrap(), SizeUnit::Kilobytes);
    assert_eq!(parse_unit("mb").unwrap(), SizeUnit::Megabytes);
    assert_eq!(parse_unit("gb").unwrap(), SizeUnit::Gigabytes);
}

#[test]
fn unit_matching_is_case_insensitive() {
    assert_eq!(parse_unit("BYTES").unwrap(), SizeUnit::Bytes);
    assert_eq!(parse_unit("KB").unwrap(), SizeUnit::Kilobytes);
    assert_eq!(parse_unit("Kb").unwrap(), SizeUnit::Kilobytes);
    assert_eq!(parse_unit("kB").unwrap(), SizeUnit::Kilobytes);
    assert_eq!(parse_unit("Mb").unwrap(), SizeUnit::Megabytes);
    assert_eq!(parse_unit("gB").unwrap(), SizeUnit::Gigabytes);
}

#[test]
fn rejects_unknown_units() {
    assert_eq!(parse_unit("tb").unwrap_err(), SizeError::InvalidUnitError);
    assert_eq!(parse_unit("").unwrap_err(), SizeError::InvalidUnitError);
    assert_eq!(parse_unit("kbb").unwrap_err(), SizeError::InvalidUnitError);
    assert_eq!(parse_unit("byte").unwrap_err(), SizeError::InvalidUnitError);
}

#[test]
fn exit_codes_match_error_kinds() {
    assert_eq!(SizeError::UsageError.exit_code(), 2);
    assert_eq!(SizeError::InvalidUnitError.exit_code(), 2);
    assert_eq!(SizeError::InvalidMagnitudeError.exit_code(), 4);
}
