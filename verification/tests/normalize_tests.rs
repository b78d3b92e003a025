use file_size::filesize::FileSize;
use file_size::magnitude::parse_magnitude;
use file_size::unit::SizeUnit;

fn bytes_of(magnitude: &str, unit: &str) -> u64 {
    let m = parse_magnitude(magnitude).unwrap();
    let f = FileSize::new(m, unit).unwrap();
    f.normalize_to_bytes()
}

#[test]
fn thousand_kb_equals_one_mb() {
    assert_eq!(bytes_of("1000", "kb"), 1_000_000);
    assert_eq!(bytes_of("1", "mb"), 1_000_000);
}

#[test]
fn multipliers_per_unit() {
    assert_eq!(bytes_of("3", "bytes"), 3);
    assert_eq!(bytes_of("3", "kb"), 3_000);
    assert_eq!(bytes_of("3", "mb"), 3_000_000);
    assert_eq!(bytes_of("3", "gb"), 3_000_000_000);
}

#[test]
fn case_of_unit_does_not_change_bytes() {
    let lower = bytes_of("5", "kb");
    assert_eq!(bytes_of("5", "KB"), lower);
    assert_eq!(bytes_of("5", "Kb"), lower);
    assert_eq!(lower, 5_000);
}

#[test]
fn zero_normalizes_to_zero_in_every_unit() {
    assert_eq!(bytes_of("0", "bytes"), 0);
    assert_eq!(bytes_of("0", "kb"), 0);
    assert_eq!(bytes_of("0", "mb"), 0);
    assert_eq!(bytes_of("0", "gb"), 0);
}

#[test]
fn fractional_bytes_truncate_toward_zero() {
    assert_eq!(bytes_of("5.7", "bytes"), 5);
    assert_eq!(bytes_of("0.9999", "bytes"), 0);
    assert_eq!(bytes_of("0.0015", "kb"), 1);
    assert_eq!(bytes_of("0.12345678912", "gb"), 123_456_789);
}

#[test]
fn fraction_scales_exactly() {
    assert_eq!(bytes_of("4.35", "kb"), 4_350);
    assert_eq!(bytes_of("2.5", "mb"), 2_500_000);
    assert_eq!(bytes_of("1.000000001", "gb"), 1_000_000_001);
}

#[test]
fn saturates_at_u64_max() {
    assert_eq!(bytes_of("99999999999999999999999", "kb"), u64::MAX);
    assert_eq!(bytes_of("20000000000", "gb"), u64::MAX);
    assert_eq!(bytes_of("18446744073709551615", "bytes"), u64::MAX);
}

#[test]
fn new_tags_the_magnitude_with_its_unit() {
    let m = parse_magnitude("7").unwrap();
    match FileSize::new(m, "mb").unwrap() {
        FileSize::Megabytes(inner) => assert_eq!(inner.int_part, 7),
        _ => panic!("wrong unit tag"),
    }
}

#[test]
fn multiplier_values() {
    assert_eq!(SizeUnit::Bytes.multiplier(), 1);
    assert_eq!(SizeUnit::Kilobytes.multiplier(), 1_000);
    assert_eq!(SizeUnit::Megabytes.multiplier(), 1_000_000);
    assert_eq!(SizeUnit::Gigabytes.multiplier(), 1_000_000_000);
}
