use launch_manifest::duration::{Duration, DurationParseError};

#[test]
fn parses_every_unit_in_the_grammar() {
    for (text, nanos) in [
        ("5ns", 5),
        ("800us", 800_000),
        ("12ms", 12_000_000),
        ("1.5s", 1_500_000_000),
        ("1.5ms", 1_500_000),
    ] {
        assert_eq!(text.parse::<Duration>().unwrap().as_nanos(), nanos, "{text}");
    }
}

#[test]
fn a_bare_number_is_rejected_not_guessed() {
    let err = "8".parse::<Duration>().unwrap_err();
    assert!(matches!(err, DurationParseError::MissingUnit(_)), "{err:?}");
    assert!(err.message().contains("8ms"), "{}", err.message());
    assert!(err.message().contains("1000x"), "{}", err.message());
}

#[test]
fn an_unknown_unit_names_the_ones_that_work() {
    let err = "12min".parse::<Duration>().unwrap_err();
    assert!(err.message().contains("ns, us, ms or s"), "{}", err.message());
}

#[test]
fn canonical_form_is_stable_and_integral() {
    for (text, canon) in [
        ("12ms", "12ms"),
        ("12000us", "12ms"),
        ("1.5ms", "1500us"),
        ("1500000ns", "1500us"),
        ("2s", "2s"),
        ("0ms", "0s"),
    ] {
        let d: Duration = text.parse().unwrap();
        assert_eq!(d.canonical(), canon, "{text}");
        assert_eq!(canon.parse::<Duration>().unwrap(), d, "{canon} round-trip");
    }
}

#[test]
fn integral_conversions_match_the_units_they_replace() {
    let d: Duration = "12ms".parse().unwrap();
    assert_eq!(Duration::from_micros(12_000), d);
    assert_eq!(Duration::from_nanos(12_000_000), d);
    assert_eq!(d.as_nanos(), 12_000_000);
}

#[test]
fn canonical_text_round_trips_for_odd_values() {
    for nanos in [1i64, 999, 1_000_001, 7_000_000_000, -3_000, i64::MAX] {
        let d = Duration::from_nanos(nanos);
        assert_eq!(Duration::parse_text(&d.canonical()).unwrap(), d, "{nanos}");
    }
}

#[test]
fn a_duration_too_large_is_refused() {
    assert!(Duration::parse_text("10000000000s").is_err());
    assert!(Duration::parse_text("").is_err());
    assert!(Duration::parse_text("ms").is_err());
}

#[test]
fn microseconds_saturate_instead_of_wrapping() {
    assert_eq!(Duration::from_micros(i64::MAX).as_nanos(), i64::MAX);
    assert_eq!(Duration::from_micros(i64::MIN).as_nanos(), i64::MIN);
}
