use std::time::Duration;

use snob_core::duration::{self, parse};

#[test]
fn it_parses_the_usual_durations() {
    assert_eq!(parse("30m").unwrap(), Duration::from_secs(1_800));
    assert_eq!(parse("6h").unwrap(), Duration::from_secs(21_600));
    assert_eq!(parse("2d").unwrap(), Duration::from_secs(172_800));
    assert_eq!(parse("45s").unwrap(), Duration::from_secs(45));
    assert_eq!(parse("90").unwrap(), Duration::from_secs(90));
    assert_eq!(parse(" 6h ").unwrap(), Duration::from_secs(21_600));
}

#[test]
fn it_parses_weeks() {
    assert_eq!(parse("1w").unwrap(), Duration::from_secs(604_800));
    assert_eq!(parse("2w").unwrap(), Duration::from_secs(1_209_600));
}

#[test]
fn it_rejects_what_is_not_a_duration() {
    for bad in ["", "h", "six hours", "6x", "-3h", "6.5h", "w"] {
        assert!(parse(bad).is_err(), "\"{bad}\" should be rejected");
    }
}

#[test]
fn a_duration_too_long_to_hold_is_refused_rather_than_wrapped() {
    assert!(parse(&format!("{}w", u64::MAX)).is_err());
}

#[test]
fn writing_and_reading_back_gives_the_same_duration() {
    for text in ["0", "45s", "30m", "6h", "2d", "2w"] {
        let parsed = parse(text).unwrap();
        assert_eq!(parse(&duration::format(parsed)).unwrap(), parsed, "{text}");
    }
}

#[test]
fn it_writes_the_unit_somebody_would_have_typed() {
    assert_eq!(duration::format(Duration::from_secs(21_600)), "6h");
    assert_eq!(duration::format(Duration::from_secs(1_209_600)), "2w");
    assert_eq!(duration::format(Duration::from_secs(90)), "90s");
    assert_eq!(duration::format(Duration::from_secs(0)), "0");
}

#[test]
fn a_refused_duration_is_named_in_what_is_said() {
    assert_eq!(
        parse(" six hours ").unwrap_err(),
        "\"six hours\" is not a valid duration (try 30m, 6h, 2d or 2w)"
    );
    assert_eq!(
        parse("18446744073709551615w").unwrap_err(),
        "\"18446744073709551615w\" is too long to be a duration"
    );
}
