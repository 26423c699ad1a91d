use std::time::Duration;

use chrono::{DateTime, Datelike, FixedOffset, TimeZone, Timelike, Utc};
use snob_core::clock::Epoch;
use snob_core::watch::schedule::calendar::Calendar;
use snob_core::watch::schedule::next::{
    due, minutes_on_named_days, moment_served, next_after, wake_at, with_jitter, Direction,
};
use snob_core::watch::schedule::parse::{cron_field, parse_cron, FieldSet};
use snob_core::watch::schedule::zone::{Change, Zone};
use snob_core::watch::schedule::{
    default_jitter, parse_time, Due, Schedule, ScheduleError, Weekday, MAX_INTERVAL_SECS,
    MIN_GAP_SECS,
};

/// A Monday at midnight, UTC: 2026-08-17.
const MONDAY_0000: i64 = 1_786_924_800;

/// A zone four hours west of UTC that goes back an hour at two in the morning of
/// that Monday.
fn falls_back() -> Zone {
    Zone {
        offset: -4 * 3_600,
        changes: vec![Change { at: MONDAY_0000 + 6 * 3_600, offset: -5 * 3_600 }],
    }
}

/// A zone five hours west of UTC that goes forward an hour at two in the morning
/// of that Monday.
fn springs_forward() -> Zone {
    Zone {
        offset: -5 * 3_600,
        changes: vec![Change { at: MONDAY_0000 + 7 * 3_600, offset: -4 * 3_600 }],
    }
}

fn at(offset_secs: i64) -> Epoch {
    Epoch::new(MONDAY_0000 + offset_secs)
}

fn hours(n: i64) -> i64 {
    n * 3_600
}

fn secs(n: i64) -> Duration {
    Duration::from_secs(n as u64)
}

/// A part of one whole, in billionths.
fn roll(part: f64) -> u64 {
    (part * 1_000_000_000.0) as u64
}

fn calendar_of(schedule: &Schedule) -> &Calendar {
    schedule.calendar_ref().expect("a calendar")
}

/// Whether a minute is open, found without any jump.
fn is_open(schedule: &Schedule, minute: i64, last_run: Option<Epoch>, zone: &Zone) -> bool {
    let seconds = minute * 60;
    let Some(at) = zone.read(seconds) else {
        return false;
    };
    let shown_before = match (last_run, zone.showings(zone.local_second(seconds))) {
        (Some(last), Some((first, second))) => {
            first != second && second == seconds && first <= last.get()
        }
        _ => false,
    };
    calendar_of(schedule).allows(&at) && !shown_before
}

/// The next moment of a schedule with no interval, a minute at a time.
fn minute_by_minute(
    schedule: &Schedule,
    last_run: Option<Epoch>,
    now: Epoch,
    zone: &Zone,
    horizon: i64,
) -> Option<Epoch> {
    let served = last_run.map(|last| {
        let from = last.get().div_euclid(60);
        (0..horizon)
            .map(|back| from - back)
            .find(|minute| is_open(schedule, *minute, None, zone))
            .map_or(last, |minute| Epoch::new(minute * 60))
    });
    let floor = match (served, last_run) {
        (Some(moment), Some(last)) => (moment + secs(MIN_GAP_SECS)).max(last),
        _ => now,
    };
    let earliest = match served {
        Some(moment) => moment.get().div_euclid(60) + 1,
        None => now.get().div_euclid(60),
    };
    if floor <= now {
        let latest = now.get().div_euclid(60);
        if (earliest..=latest)
            .rev()
            .take(horizon as usize)
            .any(|minute| is_open(schedule, minute, last_run, zone))
        {
            return Some(now);
        }
    }
    let start = floor.max(now).get();
    let first = start.div_euclid(60) + i64::from(start.rem_euclid(60) != 0);
    (first..first + horizon)
        .find(|minute| is_open(schedule, *minute, last_run, zone))
        .map(|minute| Epoch::new(minute * 60))
}

#[test]
fn next_an_interval_is_measured_from_the_previous_run() {
    let schedule = Schedule::every(Duration::from_secs(hours(6) as u64)).unwrap();
    // Started at 09:13, so the next one is 15:13 rather than 12:00.
    let last = at(hours(9) + 13 * 60);
    assert_eq!(
        next_after(&schedule, Some(last), last + secs(60), &Zone::utc()),
        Some(last + secs(hours(6)))
    );
}

#[test]
fn next_an_interval_with_nothing_behind_it_is_due_at_once() {
    let schedule = Schedule::every(Duration::from_secs(hours(6) as u64)).unwrap();
    assert_eq!(due(&schedule, None, at(0), &Zone::utc()), Due::Now { missed: 0 });
}

#[test]
fn next_a_run_is_never_due_inside_the_floor_nor_off_the_calendar() {
    let schedule = Schedule::cron("*/15 * * * *").unwrap();
    let start = at(0);
    let grid = 15 * 60;

    // A run that served `start` and wrote its row seven seconds later.
    // Whatever the current moment is before the next one comes round, `due`
    // names that next moment: on the quarter hour, and a full grid step from
    // the one that was served.
    let last = start + secs(7);
    for ahead in 0..(grid - 7) {
        match due(&schedule, Some(last), last + secs(ahead), &Zone::utc()) {
            Due::At(next) => {
                assert_eq!(
                    next - start,
                    grid,
                    "the moment served was {start:?}; the next one is a grid step away"
                );
                assert_eq!(
                    (next - start) % grid,
                    0,
                    "{next:?} is not a moment \"*/15\" names"
                );
            }
            other => panic!("declared due {ahead}s after the last run: {other:?}"),
        }
    }

    // And the moment itself is taken when it arrives, rather than pushed
    // past by the seven seconds the row trails.
    assert!(matches!(
        due(&schedule, Some(last), start + secs(grid), &Zone::utc()),
        Due::Now { .. }
    ));

    // The extreme of the softening, stated rather than left to be found: a
    // walk that took almost the whole gap leaves the next run one second
    // after the previous row. That is what a schedule asking for a run every
    // fifteen minutes, on an account that takes fifteen minutes to walk,
    // amounts to - and what bounds the requests there is the pacer's budget,
    // not this.
    let slow = start + secs(grid - 1);
    assert!(matches!(
        due(&schedule, Some(slow), start + secs(grid), &Zone::utc()),
        Due::Now { .. }
    ));
}

#[test]
fn next_a_tight_grid_keeps_its_cadence_however_long_the_walk_takes() {
    for (expression, grid) in [("*/15 * * * *", 15 * 60), ("0,20,40 * * * *", 20 * 60)] {
        let schedule = Schedule::cron(expression).unwrap();

        // A walk that takes most of the gap, which is the worst case that
        // still leaves the schedule meaningful.
        for walk in [1, 60, grid / 2] {
            let start = at(hours(9));
            let mut served = start;

            for step in 1..=4 {
                // The row is written when the walk finishes.
                let row = served + secs(walk);
                let expected = start + secs(step * grid);

                match due(&schedule, Some(row), expected, &Zone::utc()) {
                    Due::Now { .. } => {}
                    other => {
                        panic!("{expression} with a {walk}s walk skipped {expected:?}: {other:?}")
                    }
                }
                served = expected;
            }
        }
    }
}

#[test]
fn next_jitter_cannot_reach_past_the_next_moment_on_a_short_day() {
    // The fixture has to be the thing it claims: an hour that never happens.
    let skipped = Utc.with_ymd_and_hms(2026, 8, 17, 2, 30, 0).unwrap().timestamp();
    assert!(
        springs_forward().showings(skipped).is_none(),
        "the zone has to actually skip that hour"
    );

    let schedule = Schedule::calendar(&[], &[(1, 0)])
        .unwrap()
        .with_jitter(Duration::from_secs(24 * 3_600));

    // Monday 01:00 local, and Tuesday 01:00 local, which is 23 hours later.
    let due_at = at(hours(6));
    let next = at(hours(29));
    assert_eq!(
        next - due_at,
        hours(23),
        "the fixture depends on the day being short"
    );

    let woken = wake_at(&schedule, due_at, roll(0.999), &springs_forward());
    assert!(
        woken + secs(MIN_GAP_SECS) <= next,
        "woke at {woken:?}, which leaves no room before the next moment at {next:?}"
    );
}

#[test]
fn next_jitter_cannot_spill_onto_the_next_day_when_the_day_is_short() {
    let schedule = Schedule::calendar(&[Weekday::Mon], &[(1, 0)])
        .unwrap()
        .with_jitter(Duration::from_secs(23 * 3_600));

    let due_at = at(hours(6));
    let midnight = at(hours(28));
    assert_eq!(
        midnight - due_at,
        hours(22),
        "01:00 to midnight is 22 real hours on this day, not 23"
    );

    let woken = wake_at(&schedule, due_at, roll(0.96), &springs_forward());
    let landed = springs_forward().read(woken.get()).unwrap();
    assert_eq!(
        landed.weekday,
        Weekday::Mon.number(),
        "due Monday at one, woke {landed:?} - a day this schedule does not name"
    );
}

#[test]
fn next_a_tight_grid_hits_every_moment_it_names_under_the_worst_roll() {
    for (expression, grid) in [("*/15 * * * *", 15 * 60), ("0,20,40 * * * *", 20 * 60)] {
        let schedule = Schedule::cron(expression).unwrap();
        let start = at(hours(9));

        // The worst case: pushed by the whole jitter, every time. Through
        // `wake_at`, which is what the loop calls - `with_jitter` alone is
        // half the bound, and this test is here to walk the real path.
        let mut last = wake_at(&schedule, start, roll(0.999_999), &Zone::utc());
        for step in 1..=4 {
            let expected = start + secs(step * grid);
            match due(&schedule, Some(last), expected, &Zone::utc()) {
                Due::Now { .. } => {}
                other => panic!(
                    "{expression} should be due at its own moment {expected:?} \
                     after a run at {last:?}: {other:?}"
                ),
            }
            last = wake_at(&schedule, expected, roll(0.999_999), &Zone::utc());
        }
    }
}

#[test]
fn next_the_repeated_hour_of_a_fall_back_does_not_run_twice() {
    let schedule = Schedule::cron("30 1 * * *").unwrap();

    // The same wall-clock 01:30, an hour apart in real time.
    let first = at(hours(5) + 1_800);
    let second = at(hours(6) + 1_800);
    assert_eq!(second - first, 3_600, "an hour apart, and the floor is 15m");

    // The fixture has to be the thing it claims: two instants for one reading,
    // or the test proves nothing about the guard.
    let reading = falls_back().local_second(first.get());
    assert_eq!(
        falls_back().showings(reading),
        Some((first.get(), second.get())),
        "the zone must actually repeat that hour"
    );

    // Having run at the first showing, the second is not another run: the next
    // one is tomorrow.
    assert_eq!(
        due(&schedule, Some(first), second, &falls_back()),
        Due::At(at(hours(30) + 1_800)),
        "one run a day means one run a day, including the day with 25 hours"
    );

    // And the other half: a machine that was off through the first showing
    // still runs at the second. The rule is "not twice", not "not at all".
    assert!(
        matches!(
            due(&schedule, Some(first - secs(24 * 3_600)), second, &falls_back()),
            Due::Now { .. }
        ),
        "a run that has not happened is still owed"
    );
}

#[test]
fn next_a_calendar_counts_the_runs_it_allows_and_not_the_hours() {
    let schedule = Schedule::calendar(&[Weekday::Mon], &[(9, 0)])
        .unwrap()
        .and_every(Duration::from_secs(hours(1) as u64))
        .unwrap();

    // Last ran one Monday at nine; it is now the Monday a fortnight later.
    let last = at(hours(9));
    match due(&schedule, Some(last), last + secs(14 * hours(24)), &Zone::utc()) {
        Due::Now { missed } => assert_eq!(missed, 1, "one Monday went by unrun"),
        other => panic!("should be due: {other:?}"),
    }
}

#[test]
fn next_a_calendar_moment_that_went_by_is_due_at_any_second_of_the_clock() {
    let schedule = Schedule::cron("0 9 * * *").unwrap();
    // Ran yesterday at nine.
    let last = at(hours(9) - hours(24));

    // Powered on at 09:05:37: nine o'clock has gone by unrun.
    let now = at(hours(9) + 5 * 60 + 37);
    assert!(
        matches!(due(&schedule, Some(last), now, &Zone::utc()), Due::Now { .. }),
        "a run owed since 09:00 is still owed at 09:05:37"
    );

    // And 08:55:37 is before it, so it is not owed yet - the backward look
    // must not reach past the floor and find yesterday's moment again.
    let before = at(hours(8) + 55 * 60 + 37);
    assert_eq!(
        due(&schedule, Some(last), before, &Zone::utc()),
        Due::At(at(hours(9))),
        "the moment has not come yet"
    );
}

#[test]
fn next_a_first_run_does_not_depend_on_the_second_it_started_in() {
    let schedule = Schedule::calendar(&[Weekday::Mon], &[(9, 0)]).unwrap();

    for second in [0, 20, 59] {
        assert!(
            matches!(
                due(&schedule, None, at(hours(9) + second), &Zone::utc()),
                Due::Now { .. }
            ),
            "started {second}s into the minute it names, and it is that minute"
        );
    }

    // And the minute after it is not that minute.
    assert_eq!(
        due(&schedule, None, at(hours(9) + 60), &Zone::utc()),
        Due::At(at(hours(9) + 7 * 24 * 3_600)),
        "09:01 on a Monday is not 09:00 on a Monday"
    );
}

#[test]
fn next_a_moment_between_the_last_run_and_the_floor_is_served_late() {
    // One moment a day, so nothing later can stand in for it.
    let schedule = Schedule::cron("15 9 * * *").unwrap();

    // Ran at 09:00:07 - seven seconds past a moment of its own - which puts
    // the floor at 09:15:07, seven seconds past the next one.
    let last = at(hours(9) + 7);
    let now = at(hours(9) + 20 * 60);

    match due(&schedule, Some(last), now, &Zone::utc()) {
        Due::Now { .. } => {}
        other => panic!("09:15 went by unrun and is owed: {other:?}"),
    }
}

#[test]
fn next_a_moment_slept_through_is_taken_on_waking() {
    let schedule = Schedule::calendar(&[Weekday::Mon], &[(9, 0)]).unwrap();
    let last = at(hours(9) - 7 * hours(24));

    match due(&schedule, Some(last), at(hours(9) + 41 * 60 + 3), &Zone::utc()) {
        Due::Now { missed } => assert_eq!(
            missed, 0,
            "the one due now is not itself a missed run: {missed}"
        ),
        other => panic!("a Monday nine o'clock slept through is owed: {other:?}"),
    }
}

#[test]
fn next_a_calendar_with_no_interval_counts_the_runs_it_missed() {
    let schedule = Schedule::cron("0 * * * *").unwrap();
    let last = at(hours(10));

    match due(&schedule, Some(last), at(hours(13)), &Zone::utc()) {
        Due::Now { missed } => assert_eq!(missed, 2, "eleven and twelve o'clock went by"),
        other => panic!("should be due: {other:?}"),
    }
}

#[test]
fn next_a_process_that_was_down_for_days_runs_once_and_says_how_many_it_missed() {
    let schedule = Schedule::every(Duration::from_secs(hours(6) as u64)).unwrap();
    let last = at(0);
    // Three days later: twelve intervals have gone by.
    match due(&schedule, Some(last), last + secs(hours(72)), &Zone::utc()) {
        Due::Now { missed } => assert_eq!(missed, 11, "eleven skipped, and this one now"),
        other => panic!("should be due: {other:?}"),
    }
}

#[test]
fn next_a_calendar_fires_on_the_named_day_at_the_named_time() {
    let schedule = Schedule::calendar(&[Weekday::Mon, Weekday::Thu], &[(9, 0)]).unwrap();
    // Sunday evening: the next one is Monday at nine.
    let sunday = at(-hours(4));
    assert_eq!(
        next_after(&schedule, None, sunday, &Zone::utc()),
        Some(at(hours(9)))
    );
}

#[test]
fn next_a_calendar_skips_the_days_it_was_not_given() {
    let schedule = Schedule::calendar(&[Weekday::Thu], &[(9, 0)]).unwrap();
    assert_eq!(
        next_after(&schedule, None, at(hours(10)), &Zone::utc()),
        Some(at(3 * hours(24) + hours(9)))
    );
}

#[test]
fn next_an_interval_and_a_calendar_both_have_to_be_satisfied() {
    let schedule = Schedule::calendar(&[Weekday::Mon], &[(9, 0)])
        .unwrap()
        .and_every(Duration::from_secs(14 * 24 * 3_600))
        .unwrap();

    let last = at(hours(9));
    let next = next_after(&schedule, Some(last), last + secs(60), &Zone::utc()).unwrap();

    assert_eq!(
        next,
        last + secs(14 * hours(24)),
        "the Monday a fortnight later, not the one a week later"
    );
}

#[test]
fn next_the_dsl_and_cron_agree_about_monday_at_nine() {
    let dsl = Schedule::calendar(&[Weekday::Mon], &[(9, 0)]).unwrap();
    let cron = Schedule::cron("0 9 * * 1").unwrap();

    let mut at = at(-hours(30));
    for _ in 0..5 {
        let from_dsl = next_after(&dsl, None, at, &Zone::utc());
        assert_eq!(from_dsl, next_after(&cron, None, at, &Zone::utc()));
        at = from_dsl.expect("Monday comes round") + secs(60);
    }
}

#[test]
fn next_two_times_of_day_are_two_moments_and_not_their_product() {
    let schedule = Schedule::calendar(&[], &[(9, 0), (21, 30)]).unwrap();

    let mut fired = Vec::new();
    let mut at = at(0);
    for _ in 0..4 {
        let next = next_after(&schedule, None, at, &Zone::utc()).unwrap();
        let local = Utc.timestamp_opt(next.get(), 0).unwrap();
        fired.push(format!("{:02}:{:02}", local.hour(), local.minute()));
        at = next + secs(60);
    }

    assert_eq!(fired, vec!["09:00", "21:30", "09:00", "21:30"]);
}

#[test]
fn next_a_cron_expression_still_crosses_its_hour_and_minute_fields() {
    let schedule = Schedule::cron("0,30 9,21 * * *").unwrap();

    let mut fired = Vec::new();
    let mut at = at(0);
    for _ in 0..4 {
        let next = next_after(&schedule, None, at, &Zone::utc()).unwrap();
        let local = Utc.timestamp_opt(next.get(), 0).unwrap();
        fired.push(format!("{:02}:{:02}", local.hour(), local.minute()));
        at = next + secs(60);
    }

    assert_eq!(fired, vec!["09:00", "09:30", "21:00", "21:30"]);
}

#[test]
fn next_a_schedule_that_names_nothing_is_never_due_rather_than_due_at_the_end_of_time() {
    // A century out, which is past anything expressible here:
    // `MAX_INTERVAL_SECS` is a year and the search horizon is eight years.
    let a_century = at(0) + secs(100 * 366 * 24 * 3_600);
    for schedule in [
        Schedule::every(Duration::from_secs(hours(6) as u64)).unwrap(),
        Schedule::every(Duration::from_secs(MAX_INTERVAL_SECS as u64)).unwrap(),
        Schedule::cron("*/15 * * * *").unwrap(),
        // A leap day: rare enough to look impossible, and it is not.
        Schedule::cron("0 9 29 2 *").unwrap(),
        Schedule::days(&[Weekday::Mon], Duration::from_secs(14 * 24 * 3_600)).unwrap(),
    ] {
        match due(&schedule, Some(at(0)), at(hours(1)), &Zone::utc()) {
            Due::At(next) => assert!(
                next < a_century,
                "{schedule:?} handed the loop {next:?} to sleep until"
            ),
            Due::Now { .. } => {}
            Due::Never => panic!("{schedule:?} names moments and one of them is next"),
        }
    }
}

#[test]
fn next_an_impossible_calendar_answers_none_instead_of_spinning() {
    let schedule = Schedule::cron("0 0 31 2 *").unwrap();
    assert_eq!(next_after(&schedule, None, at(0), &Zone::utc()), None);
    assert_eq!(
        due(&schedule, None, at(0), &Zone::utc()),
        Due::Never,
        "there is no 31st of February, and that is not a moment to sleep until"
    );
}

#[test]
fn next_the_calendar_matches_against_local_wall_clock_time() {
    let schedule = Schedule::calendar(&[], &[(2, 30)]).unwrap();
    let zone = Zone::fixed(3_600);
    let next = next_after(&schedule, None, at(0), &zone).unwrap();

    let east = FixedOffset::east_opt(3_600).unwrap();
    let local = east.timestamp_opt(next.get(), 0).unwrap();
    assert_eq!((local.hour(), local.minute()), (2, 30));
}

#[test]
fn next_the_time_of_day_is_local() {
    let schedule = Schedule::calendar(&[], &[(9, 0)]).unwrap();
    let zone = Zone::fixed(2 * 3_600);
    let next = next_after(&schedule, None, at(0), &zone).unwrap();

    assert_eq!(
        next,
        at(hours(7)),
        "09:00 two hours east of UTC is 07:00 UTC"
    );
}

#[test]
fn next_jitter_only_ever_moves_a_run_later() {
    let due_at = at(hours(9));
    for part in [0.0, 0.5, 0.99] {
        let woken = with_jitter(due_at, Duration::from_secs(900), roll(part));
        assert!(woken >= due_at, "jitter must not pull a run earlier");
        assert!(woken <= due_at + secs(900));
    }
}

#[test]
fn next_a_roll_outside_its_range_cannot_push_a_run_anywhere() {
    let due_at = at(0);
    assert_eq!(
        with_jitter(due_at, Duration::from_secs(900), roll(5.0)),
        due_at + secs(900)
    );
    assert_eq!(with_jitter(due_at, Duration::from_secs(900), roll(-1.0)), due_at);
}

#[test]
fn next_a_clock_that_went_backwards_costs_at_most_one_interval() {
    let every = Duration::from_secs(hours(6) as u64);
    let schedule = Schedule::every(every).unwrap();
    let now = at(0);

    // The last run is recorded a day in the future.
    let Due::At(next) = due(&schedule, Some(now + secs(hours(24))), now, &Zone::utc()) else {
        panic!("a run six hours out is not due yet");
    };
    assert_eq!(
        next,
        now + secs(hours(6)),
        "the skew is discarded rather than waited out"
    );
}

#[test]
fn a_day_jump_does_not_overshoot_the_hour_a_spring_forward_takes() {
    let schedule = Schedule::calendar(&[Weekday::Tue], &[(0, 30)]).unwrap();
    assert_eq!(
        next_after(&schedule, None, at(hours(5)), &springs_forward()),
        Some(at(hours(28) + 30 * 60)),
        "Tuesday 00:30, not the Tuesday after"
    );
}

#[test]
fn the_moment_served_is_found_across_a_day_an_hour_short() {
    let schedule = Schedule::calendar(&[Weekday::Sun], &[(23, 30)]).unwrap();
    // Monday 23:59 local, after the transition.
    let late_monday = at(hours(27) + 59 * 60);
    assert_eq!(
        moment_served(calendar_of(&schedule), late_monday, &springs_forward()),
        at(hours(4) + 30 * 60),
        "the Sunday moment, not the one a week before it"
    );
}

#[test]
fn a_moment_that_went_by_before_a_short_day_is_still_owed() {
    let schedule = Schedule::calendar(&[Weekday::Sun], &[(23, 30)]).unwrap();
    let sunday_moment = at(hours(4) + 30 * 60);
    let a_week_before = sunday_moment - secs(7 * 24 * 3_600);
    let tuesday_0010 = at(hours(28) + 10 * 60);
    assert_eq!(
        due(
            &schedule,
            Some(a_week_before),
            tuesday_0010,
            &springs_forward()
        ),
        Due::Now { missed: 0 }
    );
}

#[test]
fn a_day_jump_lands_on_the_day_after_one_with_twenty_five_hours() {
    let tuesday = Schedule::calendar(&[Weekday::Tue], &[(0, 30)]).unwrap();
    assert_eq!(
        next_after(&tuesday, None, at(hours(4)), &falls_back()),
        Some(at(hours(29) + 30 * 60)),
        "Tuesday 00:30 at the post-transition offset"
    );

    let sunday = Schedule::calendar(&[Weekday::Sun], &[(23, 30)]).unwrap();
    // Monday 23:59 local, after the transition.
    let late_monday = at(hours(28) + 59 * 60);
    assert_eq!(
        moment_served(calendar_of(&sunday), late_monday, &falls_back()),
        at(hours(3) + 30 * 60),
        "Sunday 23:30 at the pre-transition offset"
    );
}

#[test]
fn the_look_back_jumps_over_a_day_and_still_refuses_the_second_showing() {
    let schedule = Schedule::calendar(&[Weekday::Mon], &[(1, 30)]).unwrap();
    let first_showing = at(hours(5) + 1_800);
    let tuesday_0010 = at(hours(29) + 10 * 60);
    assert_eq!(
        due(&schedule, Some(first_showing), tuesday_0010, &falls_back()),
        Due::At(at(7 * hours(24) + hours(6) + 1_800)),
        "next Monday 01:30, at the post-transition offset"
    );
}

#[test]
fn a_leap_day_is_found_four_years_out() {
    let schedule = Schedule::cron("0 9 29 2 *").unwrap();
    assert_eq!(
        next_after(&schedule, None, at(0), &Zone::utc()),
        Some(Epoch::new(1_835_427_600)),
        "2028-02-29 09:00 UTC"
    );
}

#[test]
fn the_day_iterator_names_exactly_the_minutes_the_calendar_does() {
    let schedules = [
        Schedule::calendar(&[Weekday::Tue], &[(0, 30)]).unwrap(),
        Schedule::calendar(&[Weekday::Sun], &[(23, 30)]).unwrap(),
        Schedule::cron("0 9 13 * 5").unwrap(),
    ];
    let from = at(-hours(24)).get().div_euclid(60);
    let to = at(hours(52)).get().div_euclid(60);
    let reach = to - from + 1;
    for schedule in &schedules {
        let calendar = calendar_of(schedule);
        for zone in [falls_back(), springs_forward(), Zone::utc()] {
            let named = |minute: &i64| {
                zone.read(minute * 60).is_some_and(|at| calendar.allows_day(&at))
            };
            let expected_forward: Vec<i64> = (from..=to).filter(named).collect();
            let forward = minutes_on_named_days(calendar, &zone, from, Direction::Forward, reach);
            assert_eq!(
                forward, expected_forward,
                "{schedule:?} forward in {zone:?}"
            );

            let expected_backward: Vec<i64> = (from..=to).rev().filter(named).collect();
            let backward = minutes_on_named_days(calendar, &zone, to, Direction::Backward, reach);
            assert_eq!(
                backward, expected_backward,
                "{schedule:?} backward in {zone:?}"
            );
        }
    }
}

#[test]
fn the_jumping_search_agrees_with_the_minute_by_minute_one() {
    // Two or three days a week each, so that walking a minute at a time stays
    // short; the jumps over the unnamed days between are the point.
    let schedules = [
        Schedule::calendar(&[Weekday::Tue, Weekday::Fri], &[(0, 30)]).unwrap(),
        Schedule::calendar(&[Weekday::Sun, Weekday::Wed], &[(23, 30)]).unwrap(),
        Schedule::calendar(&[Weekday::Mon, Weekday::Thu], &[(1, 30)]).unwrap(),
        Schedule::cron("30 1 * * *").unwrap(),
        Schedule::cron("0 9 13,17,19,21 * 5").unwrap(),
    ];
    let ten_days = 10 * 24 * 60;
    for schedule in &schedules {
        for zone in [falls_back(), springs_forward()] {
            let coarse = (0..=8).map(|step| at(-hours(2) + step * hours(6)));
            let fine = (0..=9).map(|step| at(hours(4) + step * 30 * 60));
            for now in coarse.chain(fine) {
                for last_run in [
                    None,
                    Some(now - secs(3_600)),
                    Some(now - secs(25 * 3_600)),
                    Some(now - secs(2 * 24 * 3_600)),
                ] {
                    assert_eq!(
                        next_after(schedule, last_run, now, &zone),
                        minute_by_minute(schedule, last_run, now, &zone, ten_days),
                        "{schedule:?} in {zone:?} at {now:?} after {last_run:?}"
                    );
                }
            }
        }
    }
}

#[test]
fn calendar_the_wrap_is_not_a_gap_when_the_days_are_not_consecutive() {
    assert!(
        Schedule::calendar(&[Weekday::Mon], &[(0, 0), (23, 55)]).is_ok(),
        "a whole week apart is not too often"
    );
    assert!(
        Schedule::cron("0,55 0,23 * * 1").is_ok(),
        "the same schedule written as cron"
    );

    // Consecutive days, and it is a gap again: Monday 23:55 to Tuesday
    // 00:00 is five minutes.
    assert!(matches!(
        Schedule::calendar(&[Weekday::Mon, Weekday::Tue], &[(0, 0), (23, 55)]),
        Err(ScheduleError::TooOften { .. })
    ));
    assert!(matches!(
        Schedule::calendar(&[], &[(0, 0), (23, 55)]),
        Err(ScheduleError::TooOften { .. })
    ));
}

#[test]
fn calendar_the_wrap_around_midnight_counts_as_a_gap() {
    assert!(Schedule::calendar(&[], &[(23, 55), (0, 0)]).is_err());
}

#[test]
fn calendar_two_restricted_day_fields_combine_with_or() {
    let calendar = parse_cron("0 9 13 * 5").unwrap();
    let day = |at: Epoch| calendar.allows(&Zone::utc().read(at.get()).unwrap());

    // Friday 2026-08-21 at 09:00 -- a Friday that is not the 13th.
    assert!(day(at(4 * hours(24) + hours(9))));
    // Monday 2026-08-17 at 09:00 -- neither.
    assert!(!day(at(hours(9))));
}

#[test]
fn calendar_one_unrestricted_day_field_leaves_the_other_in_charge() {
    let calendar = parse_cron("0 9 * * 1").unwrap();
    let day = |at: Epoch| calendar.allows(&Zone::utc().read(at.get()).unwrap());

    assert!(day(at(hours(9))), "Monday");
    assert!(!day(at(hours(24) + hours(9))), "Tuesday");
}

#[test]
fn mod_the_fixture_really_is_a_monday() {
    let day = Utc.timestamp_opt(MONDAY_0000, 0).unwrap();
    assert_eq!(day.weekday(), chrono::Weekday::Mon);
    assert_eq!((day.hour(), day.minute()), (0, 0));
    let read = Zone::utc().read(MONDAY_0000).unwrap();
    assert_eq!((read.year, read.month, read.day), (2026, 8, 17));
    assert_eq!((read.weekday, read.hour, read.minute), (1, 0, 0));
}

#[test]
fn mod_jitter_is_bounded_by_what_the_schedule_can_absorb() {
    let every = Duration::from_secs(hours(6) as u64);
    let schedule = Schedule::every(every)
        .unwrap()
        .with_jitter(Duration::from_secs(30 * 24 * 3_600));
    assert_eq!(
        schedule.jitter(),
        every,
        "an interval has no grid to miss: what moves is the whole schedule"
    );

    let calendar = Schedule::calendar(&[], &[(9, 0), (21, 0)])
        .unwrap()
        .with_jitter(Duration::from_secs(30 * 24 * 3_600));
    assert_eq!(
        calendar.jitter(),
        Duration::from_secs((hours(12) - MIN_GAP_SECS) as u64),
        "a full twelve hours would put the nine o'clock run inside the floor \
         of the nine in the evening"
    );

    // With both halves set, what separates two runs is the interval, and here it
    // is longer than the grid: a Monday in every two has no room at all.
    let both = Schedule::calendar(&[Weekday::Mon], &[(9, 0)])
        .unwrap()
        .and_every(Duration::from_secs(14 * 24 * 3_600))
        .unwrap()
        .with_jitter(Duration::from_secs(5 * 24 * 3_600));
    assert_eq!(both.jitter(), Duration::ZERO);
}

#[test]
fn mod_jitter_cannot_move_a_run_onto_a_day_the_calendar_forbids() {
    let schedule = Schedule::calendar(&[Weekday::Mon], &[(9, 0)])
        .unwrap()
        .with_jitter(Duration::from_secs(20 * 3_600));

    let due_at = at(hours(9));
    let woken = with_jitter(due_at, schedule.jitter(), roll(0.999_999));

    let landed = DateTime::from_timestamp(woken.get(), 0).unwrap();
    assert_eq!(
        landed.weekday(),
        chrono::Weekday::Mon,
        "due Monday at nine, woke {landed} - a day this schedule does not name"
    );

    // Every day allowed is the other case, and it needs no cap: the day a
    // run spills into is one the calendar names.
    let daily = Schedule::calendar(&[], &[(9, 0)])
        .unwrap()
        .with_jitter(Duration::from_secs(20 * 3_600));
    assert_eq!(
        daily.jitter(),
        Duration::from_secs(20 * 3_600),
        "nothing to protect when tomorrow is allowed too"
    );
}

#[test]
fn mod_an_interval_too_long_to_add_up_is_refused_as_too_long() {
    for seconds in [u64::MAX, i64::MAX as u64, MAX_INTERVAL_SECS as u64 + 1] {
        let refused = Schedule::every(Duration::from_secs(seconds));
        assert!(
            matches!(refused, Err(ScheduleError::TooRare { .. })),
            "{seconds}s: {refused:?}"
        );
    }

    // And the largest one that is allowed still answers without overflowing.
    let schedule = Schedule::every(Duration::from_secs(MAX_INTERVAL_SECS as u64)).unwrap();
    assert_eq!(
        due(&schedule, Some(at(0)), at(1), &Zone::utc()),
        Due::At(at(MAX_INTERVAL_SECS))
    );
}

#[test]
fn mod_nothing_gets_past_the_minimum_gap() {
    for expression in ["* * * * *", "*/5 * * * *", "0,10 * * * *"] {
        assert!(
            Schedule::cron(expression).is_err(),
            "\"{expression}\" runs more often than the floor allows"
        );
    }
    assert!(Schedule::calendar(&[], &[(9, 0), (9, 5)]).is_err());
    assert!(Schedule::every(Duration::from_secs(300)).is_err());
}

#[test]
fn mod_an_ordinary_schedule_is_not_caught_by_the_floor() {
    for expression in ["0 9 * * *", "0 */6 * * *", "0 9 * * 1,4", "0,30 * * * *"] {
        assert!(
            Schedule::cron(expression).is_ok(),
            "\"{expression}\" should be allowed"
        );
    }
    assert!(Schedule::calendar(&[], &[(9, 0), (21, 30)]).is_ok());
    assert!(Schedule::every(Duration::from_secs(MIN_GAP_SECS as u64)).is_ok());
}

#[test]
fn mod_the_default_jitter_scales_with_the_interval_and_is_capped() {
    assert_eq!(
        default_jitter(Some(Duration::from_secs(hours(6) as u64))),
        Duration::from_secs(900),
        "a tenth of six hours is over the cap, so it is the cap"
    );
    assert_eq!(
        default_jitter(Some(Duration::from_secs(hours(1) as u64))),
        Duration::from_secs(360)
    );
    assert_eq!(
        default_jitter(Some(Duration::from_secs(MIN_GAP_SECS as u64))),
        Duration::from_secs(90)
    );
}

#[test]
fn mod_an_interval_below_the_minimum_gap_is_refused_with_a_reason() {
    let error = Schedule::every(Duration::from_secs(300)).unwrap_err();
    assert!(matches!(error, ScheduleError::TooOften { .. }));
    assert!(error.to_string().contains("15 minutes"), "{error:?}");
}

#[test]
fn mod_a_schedule_with_neither_half_is_refused() {
    assert_eq!(
        Schedule::calendar(&[Weekday::Mon], &[]).unwrap_err(),
        ScheduleError::Unreadable("a calendar needs a time of day: try --at 09:00".to_string())
    );
}

#[test]
fn parse_cron_accepts_the_shapes_a_cron_expression_has() {
    // Every six hours on the hour.
    let every_six = Schedule::cron("0 */6 * * *").unwrap();
    assert_eq!(
        next_after(&every_six, None, at(hours(1)), &Zone::utc()),
        Some(at(hours(6)))
    );

    // A list of days.
    let mon_thu = Schedule::cron("0 9 * * 1,4").unwrap();
    assert_eq!(
        next_after(&mon_thu, None, at(hours(10)), &Zone::utc()),
        Some(at(3 * hours(24) + hours(9)))
    );
}

#[test]
fn a_whole_field_is_every_value_in_its_range() {
    for (start, end) in [(1, 31), (0, 6), (0, 59), (0, 23), (1, 12), (0, 63)] {
        let mut bits = 0u64;
        for value in start..=end {
            bits |= 1 << value;
        }
        assert_eq!(FieldSet::all(start, end), FieldSet(bits), "{start}..={end}");
        assert!(FieldSet::all(start, end).is_all(start, end));
    }
    assert_eq!(FieldSet::all(5, 4), FieldSet(0), "an empty range is empty");
}

#[test]
fn parse_cron_reads_seven_as_sunday() {
    assert_eq!(
        Schedule::cron("0 9 * * 0").unwrap().calendar_ref(),
        Schedule::cron("0 9 * * 7").unwrap().calendar_ref()
    );
}

#[test]
fn parse_cron_refuses_what_it_cannot_read() {
    for bad in [
        "0 9 * *",
        "0 9 * * * *",
        "60 9 * * *",
        "0 24 * * *",
        "0 9 * * 8",
        "abc 9 * * *",
        "0 9-5 * * *",
        "0 */0 * * *",
    ] {
        assert!(Schedule::cron(bad).is_err(), "\"{bad}\" should be refused");
    }
}

#[test]
fn parse_weekdays_are_read_the_ways_people_write_them() {
    assert_eq!(Weekday::parse("mon"), Some(Weekday::Mon));
    assert_eq!(Weekday::parse("Monday"), Some(Weekday::Mon));
    assert_eq!(Weekday::parse("THU"), Some(Weekday::Thu));
    assert_eq!(Weekday::parse("0"), Some(Weekday::Sun));
    assert_eq!(Weekday::parse("7"), Some(Weekday::Sun));
    assert_eq!(Weekday::parse("funday"), None);
}

#[test]
fn parse_times_are_read_and_refused_as_written() {
    assert_eq!(parse_time("09:00").unwrap(), (9, 0));
    assert_eq!(parse_time(" 21:30 ").unwrap(), (21, 30));
    for bad in ["9", "25:00", "09:60", "nine", "09:"] {
        assert!(parse_time(bad).is_err(), "\"{bad}\" should be refused");
    }
}

#[test]
fn a_schedule_knows_whether_it_has_a_grid() {
    assert!(!Schedule::every(Duration::from_secs(3_600)).unwrap().is_on_a_calendar());
    assert!(Schedule::cron("0 9 * * *").unwrap().is_on_a_calendar());
    assert!(Schedule::days(&[Weekday::Mon], Duration::from_secs(3_600)).unwrap().is_on_a_calendar());
}

/// The wall clock at the ends of what can be named, and at a leap day.
#[test]
fn the_wall_clock_reads_what_the_calendar_says() {
    let utc = Zone::utc();
    let read = utc.read(951_782_399).unwrap();
    assert_eq!((read.year, read.month, read.day), (2000, 2, 28));
    assert_eq!((read.weekday, read.hour, read.minute), (1, 23, 59));
    let read = utc.read(951_782_400).unwrap();
    assert_eq!((read.year, read.month, read.day), (2000, 2, 29));
    let read = Zone::fixed(-3_600).read(0).unwrap();
    assert_eq!((read.year, read.month, read.day), (1969, 12, 31));
    assert_eq!((read.weekday, read.hour, read.minute), (3, 23, 0));
    assert!(utc.read(i64::MAX).is_none());
    assert!(utc.read(8_210_266_876_799).is_some());
    assert!(utc.read(8_210_266_876_800).is_none());
    assert!(utc.read(-8_334_601_228_800).is_some());
    assert!(utc.read(-8_334_601_228_801).is_none());
    let last = Zone::fixed(86_399).read(8_210_266_876_799).unwrap();
    assert_eq!((last.year, last.month, last.day), (262_143, 1, 1));
    assert!(Zone::fixed(86_400).read(0).is_none());
}

/// 2100 is no leap year, so two leap days are eight years apart around it.
#[test]
fn a_leap_day_is_found_across_a_century_that_has_none() {
    let leap = Schedule::cron("0 0 29 2 *").unwrap();
    let moment = |year, month, day| {
        Epoch::new(Utc.with_ymd_and_hms(year, month, day, 0, 0, 0).unwrap().timestamp())
    };
    let (before, after) = (moment(2096, 2, 29), moment(2104, 2, 29));
    let now = moment(2096, 3, 1);

    assert_eq!(next_after(&leap, None, now, &Zone::utc()), Some(after));
    assert_eq!(due(&leap, None, now, &Zone::utc()), Due::At(after));
    assert_eq!(next_after(&leap, Some(before), now, &Zone::utc()), Some(after));

    // Looking back over the same years: the run of 2096 is the one served, and a
    // process that was down since then owes one run.
    let late = moment(2104, 2, 28);
    assert_eq!(moment_served(calendar_of(&leap), late, &Zone::utc()), before);
    assert_eq!(due(&leap, Some(moment(2096, 2, 28)), late, &Zone::utc()), Due::Now { missed: 0 });
}

#[test]
fn a_field_with_nothing_in_its_range_is_refused() {
    for text in ["*", "5", "*/2"] {
        let chars: Vec<char> = text.chars().collect();
        assert!(cron_field(&chars, 5, 4, "hour").is_err(), "{text}");
    }
    let chars: Vec<char> = "*".chars().collect();
    assert_eq!(
        cron_field(&chars, 5, 4, "hour"),
        Err(ScheduleError::Unreadable(
            "\"*\" is not an hour a cron expression can have".to_string()
        ))
    );
}
