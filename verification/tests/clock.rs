use std::time::Duration;

use snob_core::clock::{floor_div, floor_mod, now, now_ms, Epoch, EpochMs};
use snob_core::Pk;

#[test]
fn a_moment_is_still_written_as_a_plain_number() {
    let at = Epoch::new(1_786_310_990);
    assert_eq!(at.to_string(), "1786310990");
}

#[test]
fn a_moment_in_milliseconds_is_still_written_as_a_plain_number() {
    let until = EpochMs::new(1_786_310_990_123);
    assert_eq!(until.to_string(), "1786310990123");
}

#[test]
fn a_cooldown_end_floors_to_the_second_it_is_in() {
    assert_eq!(EpochMs::new(1_786_310_990_123).to_epoch(), Epoch::new(1_786_310_990));
    assert_eq!(EpochMs::new(-1_500).to_epoch(), Epoch::new(-2));
    assert_eq!(Epoch::new(1_786_310_990).to_ms().get(), 1_786_310_990_000);
}

#[test]
fn a_moment_takes_a_length_of_time_and_gives_one_back() {
    let at = Epoch::new(1_000);

    assert_eq!(at + Duration::from_secs(60), Epoch::new(1_060));
    assert_eq!(at - Duration::from_secs(60), Epoch::new(940));
    assert_eq!(Epoch::new(1_060) - at, 60);
    assert_eq!(at - Epoch::new(1_060), -60, "and the difference is signed");

    assert_eq!(EpochMs::new(1_000) + Duration::from_secs(1), EpochMs::new(2_000));
    assert_eq!(EpochMs::new(2_000) - EpochMs::new(1_000), 1_000);
}

#[test]
fn an_absurd_length_of_time_stops_at_the_end_of_time() {
    assert_eq!(Epoch::new(1_000) + Duration::MAX, Epoch::new(i64::MAX));
    assert_eq!(
        Epoch::new(-1_000) - Duration::MAX,
        Epoch::new(i64::MIN),
        "a length of time longer than a moment can hold is i64::MAX of them"
    );
    assert_eq!(Epoch::new(i64::MIN) - Epoch::new(i64::MAX), i64::MIN);
    assert_eq!(Epoch::new(i64::MAX).to_ms(), EpochMs::new(i64::MAX));
}

#[test]
fn an_id_is_still_written_as_a_plain_number() {
    let pk = Pk::new(4_340_136_074);
    assert_eq!(pk.to_string(), "4340136074");
    assert_eq!("4340136074".parse::<Pk>().unwrap(), pk);
}

#[test]
fn what_is_not_a_number_is_not_an_id() {
    for bad in ["", "abc", "-1", "12 ", "18446744073709551616"] {
        assert!(bad.parse::<Pk>().is_err(), "{bad}");
        assert_eq!(Pk::parse(bad), None, "{bad}");
    }
    assert_eq!(Pk::parse("18446744073709551615"), Some(Pk::new(u64::MAX)));
    assert_eq!(Pk::from(7), Pk::new(7));
    assert_eq!(Pk::new(7).get(), 7);
}

#[test]
fn the_two_clocks_tell_the_same_time() {
    let seconds = now();
    let milliseconds = now_ms();
    assert!(seconds.get() > 1_600_000_000, "a clock that reads before this was written");
    let apart = milliseconds.to_epoch() - seconds;
    assert!(apart >= 0 && apart < 60, "{apart}");
}

#[test]
fn dividing_rounds_down_on_either_side_of_zero() {
    assert_eq!(floor_div(7, 2), 3);
    assert_eq!(floor_div(-7, 2), -4);
    assert_eq!(floor_div(i64::MIN, 1), i64::MIN);
    assert_eq!(floor_mod(-7, 2), 1);
    assert_eq!(floor_mod(7, 2), 1);
}

#[test]
fn a_moment_is_the_epoch_by_default_and_a_number_becomes_one() {
    assert_eq!(Epoch::default(), Epoch::new(0));
    assert_eq!(EpochMs::default(), EpochMs::new(0));
    assert_eq!(Epoch::from(5), Epoch::new(5));
    assert_eq!(EpochMs::from(5), EpochMs::new(5));
    assert_eq!(EpochMs::new(5_000) - Duration::from_millis(1_500), EpochMs::new(3_500));
}
