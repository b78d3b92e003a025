use file_size::sizes::Sizes;

#[test]
fn one_gigabyte_formats_exactly() {
    let s = Sizes::from_bytes(1_000_000_000);
    assert_eq!(s.bytes, "1000000000 bytes");
    assert_eq!(s.kilobytes, "1000000.00 kb");
    assert_eq!(s.megabytes, "1000.00 mb");
    assert_eq!(s.gigabytes, "1.00 gb");
}

#[test]
fn zero_formats_as_zero_in_every_field() {
    let s = Sizes::from_bytes(0);
    assert_eq!(s.bytes, "0 bytes");
    assert_eq!(s.kilobytes, "0.00 kb");
    assert_eq!(s.megabytes, "0.00 mb");
    assert_eq!(s.gigabytes, "0.00 gb");
}

#[test]
fn two_decimal_places_always_shown() {
    let s = Sizes::from_bytes(1_500);
    assert_eq!(s.kilobytes, "1.50 kb");
    assert_eq!(s.megabytes, "0.00 mb");
}

#[test]
fn rounds_to_nearest_hundredth_half_up() {
    let s = Sizes::from_bytes(1_005);
    assert_eq!(s.kilobytes, "1.01 kb");
    let s = Sizes::from_bytes(1_004);
    assert_eq!(s.kilobytes, "1.00 kb");
    let s = Sizes::from_bytes(4_999_999);
    assert_eq!(s.megabytes, "5.00 mb");
}

#[test]
fn small_counts_round_up_to_a_hundredth() {
    let s = Sizes::from_bytes(5);
    assert_eq!(s.bytes, "5 bytes");
    assert_eq!(s.kilobytes, "0.01 kb");
    assert_eq!(s.megabytes, "0.00 mb");
}

#[test]
fn largest_count_formats_without_overflow() {
    let s = Sizes::from_bytes(u64::MAX);
    assert_eq!(s.bytes, "18446744073709551615 bytes");
    assert_eq!(s.gigabytes, "18446744073.71 gb");
}

#[test]
fn display_lines_are_labelled_and_indented() {
    let s = Sizes::from_bytes(5_000);
    let text = s.to_display_string();
    assert_eq!(
        text,
        "   bytes: 5000 bytes\n   kilobytes: 5.00 kb\n   megabytes: 0.01 mb\n   gigabytes: 0.00 gb\n"
    );
}
