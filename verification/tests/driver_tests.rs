use file_size::driver::run;

fn args(v: &[&str]) -> Vec<String> {
    v.iter().map(|s| s.to_string()).collect()
}

#[test]
fn success_prints_all_four_units() {
    let r = run(&args(&["prog", "5", "kb"]));
    assert_eq!(r.exit_code, 0);
    assert_eq!(r.stderr, "");
    assert_eq!(
        r.stdout,
        "file size (5 kb):\n   bytes: 5000 bytes\n   kilobytes: 5.00 kb\n   megabytes: 0.01 mb\n   gigabytes: 0.00 gb\n\n"
    );
}

#[test]
fn zero_magnitude_prints_zero_fields() {
    let r = run(&args(&["prog", "0", "gb"]));
    assert_eq!(r.exit_code, 0);
    assert_eq!(
        r.stdout,
        "file size (0 gb):\n   bytes: 0 bytes\n   kilobytes: 0.00 kb\n   megabytes: 0.00 mb\n   gigabytes: 0.00 gb\n\n"
    );
}

#[test]
fn no_arguments_is_a_usage_error() {
    let r = run(&args(&["prog"]));
    assert_eq!(r.exit_code, 2);
    assert_eq!(r.stdout, "");
    assert_eq!(r.stderr, "Usage: prog <file_size> <unit (bytes/kb/mb/gb)>");
}

#[test]
fn one_argument_is_a_usage_error() {
    let r = run(&args(&["prog", "5"]));
    assert_eq!(r.exit_code, 2);
    assert_eq!(r.stderr, "Usage: prog <file_size> <unit (bytes/kb/mb/gb)>");
}

#[test]
fn extra_arguments_are_a_usage_error() {
    let r = run(&args(&["prog", "5", "kb", "extra"]));
    assert_eq!(r.exit_code, 2);
    assert_eq!(r.stdout, "");
    assert_eq!(r.stderr, "Usage: prog <file_size> <unit (bytes/kb/mb/gb)>");
}

#[test]
fn empty_argument_list_is_a_usage_error() {
    let r = run(&args(&[]));
    assert_eq!(r.exit_code, 2);
    assert_eq!(r.stderr, "Usage:  <file_size> <unit (bytes/kb/mb/gb)>");
}

#[test]
fn negative_magnitude_exits_with_four() {
    let r = run(&args(&["prog", "-5", "kb"]));
    assert_eq!(r.exit_code, 4);
    assert_eq!(r.stdout, "");
    assert_eq!(r.stderr, "Invalid file size. Size cannot be a negative number.");
}

#[test]
fn negative_magnitude_wins_over_invalid_unit() {
    let r = run(&args(&["prog", "-5", "tb"]));
    assert_eq!(r.exit_code, 4);
    assert_eq!(r.stderr, "Invalid file size. Size cannot be a negative number.");
}

#[test]
fn non_numeric_magnitude_exits_with_four() {
    let r = run(&args(&["prog", "abc", "kb"]));
    assert_eq!(r.exit_code, 4);
    assert_eq!(r.stdout, "");
    assert_eq!(r.stderr, "Invalid file size. Size cannot be a non-numeric value.");
}

#[test]
fn non_numeric_magnitude_wins_over_invalid_unit() {
    let r = run(&args(&["prog", "abc", "tb"]));
    assert_eq!(r.exit_code, 4);
    assert_eq!(r.stderr, "Invalid file size. Size cannot be a non-numeric value.");
}

#[test]
fn invalid_unit_exits_with_two() {
    let r = run(&args(&["prog", "5", "tb"]));
    assert_eq!(r.exit_code, 2);
    assert_eq!(r.stdout, "");
    assert_eq!(
        r.stderr,
        "Invalid unit: 'tb'. Supported units: 'bytes', 'kb', 'mb', or 'gb'."
    );
}

#[test]
fn uppercase_unit_normalizes_like_lowercase() {
    let upper = run(&args(&["prog", "5", "KB"]));
    let lower = run(&args(&["prog", "5", "kb"]));
    assert_eq!(upper.exit_code, 0);
    assert!(upper.stdout.contains("   bytes: 5000 bytes\n"));
    assert!(lower.stdout.contains("   bytes: 5000 bytes\n"));
}

#[test]
fn formatted_value_stays_within_a_hundredth() {
    let r = run(&args(&["prog", "0.0015", "kb"]));
    assert_eq!(r.exit_code, 0);
    assert!(r.stdout.contains("   bytes: 1 bytes\n"));
    assert!(r.stdout.contains("   kilobytes: 0.00 kb\n"));
}
