//! Durations of configurations.

use clash_prism_core::duration::{
    duration_from_integer, duration_from_text, parse_human_duration, read_human_duration,
    ConfiguredDuration, HumanDuration, NANOS, TOO_LONG,
};

fn nanos(s: &str) -> u128 {
    match duration_from_text(s) {
        ConfiguredDuration::Nanos(n) => n,
        other => panic!("{}: {:?}", s, other),
    }
}

fn refusal(d: ConfiguredDuration) -> String {
    match d {
        ConfiguredDuration::Refused(m) => m,
        other => panic!("{:?}", other),
    }
}

#[test]
fn numbers_are_seconds() {
    assert_eq!(nanos("30"), 30 * NANOS);
    assert_eq!(nanos("1.5"), 1_500_000_000);
    assert_eq!(nanos("+2"), 2 * NANOS);
    assert_eq!(nanos("1e3"), 1000 * NANOS);
    assert_eq!(nanos("1e-9"), 1);
    assert_eq!(nanos("4e-10"), 0);
    assert_eq!(nanos("5e-10"), 1);
    assert_eq!(nanos("1e-30"), 0);
    assert_eq!(nanos("-0"), 0);
    assert_eq!(nanos("0"), 0);
    assert_eq!(nanos("0.000000001234"), 1);
}

#[test]
fn words_are_durations() {
    assert_eq!(nanos("30s"), 30 * NANOS);
    assert_eq!(nanos("1m30s"), 90 * NANOS);
    assert_eq!(nanos("30s1m"), 90 * NANOS);
    assert_eq!(nanos("1h30m15s"), 5415 * NANOS);
    assert_eq!(nanos(" 1.5s "), 1_500_000_000);
    assert_eq!(nanos("0.5h"), 1800 * NANOS);
}

#[test]
fn what_is_no_duration_is_refused() {
    assert_eq!(refusal(duration_from_text("-1")), "duration cannot be negative");
    assert_eq!(refusal(duration_from_text("-inf")), "duration cannot be negative");
    assert_eq!(
        refusal(duration_from_text("abc")),
        "invalid duration format: 'abc', expected number (seconds) or human-readable (e.g., \"30s\", \"1m30s\", \"1.5s\")"
    );
    assert!(refusal(duration_from_text("0s")).starts_with("invalid duration format: '0s'"));
    assert!(refusal(duration_from_text("")).starts_with("invalid duration format: ''"));
    assert!(refusal(duration_from_text("30x")).starts_with("invalid duration format: '30x'"));
    assert_eq!(refusal(duration_from_integer(-5)), "duration cannot be negative");
}

#[test]
fn no_duration_lasts_for_ever() {
    for s in ["inf", "NaN", "18446744073709551700", "1e20", "1e300", "5124095576030432h"] {
        assert!(matches!(duration_from_text(s), ConfiguredDuration::OutOfRange), "{}", s);
    }
    assert_eq!(nanos("1e19"), 10_000_000_000_000_000_000 * NANOS);
    assert!(matches!(
        duration_from_integer(18_446_744_073_709_551_616),
        ConfiguredDuration::OutOfRange
    ));
    assert!(matches!(
        duration_from_integer(18_446_744_073_709_551_615),
        ConfiguredDuration::Nanos(n) if n == TOO_LONG - NANOS
    ));
    assert!(matches!(duration_from_integer(0), ConfiguredDuration::Nanos(0)));
}

#[test]
fn durations_in_words() {
    assert_eq!(parse_human_duration("2m"), Some(120 * NANOS));
    assert_eq!(parse_human_duration("2"), None);
    assert_eq!(parse_human_duration("m2"), None);
    assert_eq!(read_human_duration("1.2.3s"), HumanDuration::Invalid);
    assert_eq!(read_human_duration(".5s"), HumanDuration::Nanos(500_000_000));
    assert_eq!(read_human_duration("99999999999999999999s"), HumanDuration::TooLong);
}
