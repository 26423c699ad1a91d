//! Which moments a schedule has, said of its fields, its days and its times.
use std::time::Duration;
use vstd::prelude::*;

use super::calendar::{Calendar, Times};
use super::laws::{
    a_clock_that_does_not_change_skips_nothing, is_whole_offset, lemma_has_moment, lemma_remainders,
    the_moment_served_is_not_after_the_run, the_moment_served_is_the_last_one_allowed,
    the_next_moment_on_a_clock_that_does_not_change,
};
use super::next::{
    already_run, ceil_minute, first_owed, grid_floor, latest, minute_allowed, missed,
    moments_until, next_due, next_midnight, rolled, room_at_moment, served, trusted,
    MAX_MISSED_COUNTED,
};
use super::parse::Weekday;
use super::zone::{
    date_of, day_number, in_range, is_date, lemma_date_of, offset_among, weekday_of, Change, Zone,
    FIRST_SECOND, LAST_SECOND,
};
use super::{
    default_jitter_nanos, fitted_nanos, is_day_set, is_named_calendar, is_refusal, is_runnable,
    is_time_of_day, is_whole_days_calendar, room_nanos, step_of, Schedule, ScheduleError,
};
use crate::clock::{duration_nanos, duration_secs, Epoch};
use crate::duration::spelling;

verus! {

/// When a calendar leaves out some day of the month and some day of the week, a date in
/// one of its months is named by its day whatever its weekday is, by its weekday whatever
/// its day is, and by nothing else.
pub proof fn either_day_field_names_a_date(
    calendar: Calendar,
    year: int,
    month: int,
    day: int,
    no_day: int,
    no_weekday: int,
)
    requires
        is_date(year, month, day),
        calendar.months.has(month),
        1 <= no_day <= 31 && !calendar.days_of_month.has(no_day),
        0 <= no_weekday <= 6 && !calendar.days_of_week.has(no_weekday),
    ensures
        calendar.days_of_month.has(day) ==> calendar.names_day(day_number(year, month, day)),
        calendar.days_of_week.has(weekday_of(day_number(year, month, day)))
            ==> calendar.names_day(day_number(year, month, day)),
        calendar.names_day(day_number(year, month, day)) ==> calendar.days_of_month.has(day)
            || calendar.days_of_week.has(weekday_of(day_number(year, month, day))),
{
    lemma_date_of(year, month, day);
    assert(calendar.restricts_days_of_month());
    assert(calendar.restricts_days_of_week());
}

/// When the days of the week are left open, the day of the month alone decides.
pub proof fn an_open_weekday_leaves_it_to_the_day(
    calendar: Calendar,
    year: int,
    month: int,
    day: int,
    no_day: int,
)
    requires
        is_date(year, month, day),
        calendar.months.has(month),
        1 <= no_day <= 31 && !calendar.days_of_month.has(no_day),
        forall|v: int| #[trigger] calendar.days_of_week.has(v) <==> 0 <= v <= 6,
    ensures
        calendar.names_day(day_number(year, month, day)) <==> calendar.days_of_month.has(day),
{
    lemma_date_of(year, month, day);
    assert(calendar.restricts_days_of_month());
}

/// When the days of the month are left open, the weekday alone decides.
pub proof fn an_open_day_leaves_it_to_the_weekday(
    calendar: Calendar,
    year: int,
    month: int,
    day: int,
    no_weekday: int,
)
    requires
        is_date(year, month, day),
        calendar.months.has(month),
        forall|v: int| #[trigger] calendar.days_of_month.has(v) <==> 1 <= v <= 31,
        0 <= no_weekday <= 6 && !calendar.days_of_week.has(no_weekday),
    ensures
        calendar.names_day(day_number(year, month, day)) <==> calendar.days_of_week.has(
            weekday_of(day_number(year, month, day)),
        ),
{
    lemma_date_of(year, month, day);
    assert(calendar.restricts_days_of_week());
}

/// With both day fields left open every date of a month the calendar has is named, and no
/// date is named in a month it does not have.
pub proof fn open_days_leave_it_to_the_month(calendar: Calendar, year: int, month: int, day: int)
    requires
        is_date(year, month, day),
    ensures
        (forall|v: int| #[trigger] calendar.days_of_month.has(v) <==> 1 <= v <= 31) && (forall|
            v: int,
        | #[trigger]
            calendar.days_of_week.has(v) <==> 0 <= v <= 6) ==> (calendar.names_day(
            day_number(year, month, day),
        ) <==> calendar.months.has(month)),
        !calendar.months.has(month) ==> !calendar.names_day(day_number(year, month, day)),
{
    lemma_date_of(year, month, day);
}

/// A week goes round: the day after a day is the next weekday, and seven days on it is the
/// same one. The first of January 1970 was a Thursday.
pub proof fn a_week_goes_round(number: int)
    ensures
        weekday_of(number) < 6 ==> weekday_of(number + 1) == weekday_of(number) + 1,
        weekday_of(number) == 6 ==> weekday_of(number + 1) == 0,
        weekday_of(number + 7) == weekday_of(number),
        weekday_of(day_number(1970, 1, 1)) == 4,
{
}

/// A minute is allowed exactly when the date the wall clock shows is named and the time it
/// shows is one of the calendar's.
pub proof fn a_minute_is_allowed_by_its_date_and_its_time(
    calendar: Calendar,
    zone: Zone,
    minute: int,
    year: int,
    month: int,
    day: int,
    h: int,
    m: int,
)
    requires
        is_date(year, month, day),
        0 <= h < 24,
        0 <= m < 60,
        zone.readable(minute * 60),
        minute * 60 + zone.offset_at(minute * 60) == day_number(year, month, day) * 86_400 + h
            * 3_600 + m * 60,
    ensures
        minute_allowed(calendar, zone, minute) <==> calendar.names_day(
            day_number(year, month, day),
        ) && calendar.times.has(h, m),
{
    let second = h * 3_600 + m * 60;
    lemma_remainders(day_number(year, month, day), second);
    assert(second / 3_600 == h);
    assert(second % 3_600 == m * 60);
}

/// Days and times named by hand are those times of those days, and of every day when no
/// day is named.
pub proof fn the_named_times_of_the_named_days(
    calendar: Calendar,
    days: Seq<Weekday>,
    times: Seq<(u32, u32)>,
    year: int,
    month: int,
    day: int,
    h: u32,
    m: u32,
)
    requires
        is_named_calendar(calendar, days, times),
        is_date(year, month, day),
    ensures
        calendar.times.has(h as int, m as int) <==> times.contains((h, m)),
        calendar.names_day(day_number(year, month, day)) <==> days.len() == 0 || exists|i: int|
            0 <= i < days.len() && (#[trigger] days[i]).index() == weekday_of(
                day_number(year, month, day),
            ),
{
    lemma_date_of(year, month, day);
    let number = day_number(year, month, day);
    if let Times::Exact(exact) = calendar.times {
        assert(exact@.contains((h, m)) <==> times.contains((h, m)));
        if exact@.contains((h, m)) {
            let i = choose|i: int| 0 <= i < exact@.len() && exact@[i] == (h, m);
            assert(exact@[i].0 == h && exact@[i].1 == m);
        }
        if calendar.times.has(h as int, m as int) {
            let i = choose|i: int|
                0 <= i < exact@.len() && (#[trigger] exact@[i]).0 == h as int && exact@[i].1
                    == m as int;
            assert(exact@[i] == (h, m));
        }
    }
    assert(calendar.months.has(month));
    lemma_day_set_decides(calendar, days, number);
}

/// Where the days of the month are open, a set of weekdays decides, the whole week
/// included.
proof fn lemma_day_set_decides(calendar: Calendar, days: Seq<Weekday>, number: int)
    requires
        calendar.days_of_month.is_whole(1, 31),
        calendar.months.has(date_of(number).1),
        days.len() > 0 ==> is_day_set(calendar.days_of_week, days),
        days.len() == 0 ==> calendar.days_of_week.is_whole(0, 6),
    ensures
        calendar.names_day(number) <==> days.len() == 0 || exists|i: int|
            0 <= i < days.len() && (#[trigger] days[i]).index() == weekday_of(number),
{
    let weekday = weekday_of(number);
    assert(0 <= weekday <= 6);
    if days.len() > 0 && !calendar.restricts_days_of_week() {
        assert(calendar.days_of_week.has(weekday));
    }
}

/// Days named with an interval are the whole of those days.
pub proof fn the_whole_of_the_named_days(
    calendar: Calendar,
    days: Seq<Weekday>,
    year: int,
    month: int,
    day: int,
    h: int,
    m: int,
)
    requires
        is_whole_days_calendar(calendar, days),
        days.len() > 0,
        is_date(year, month, day),
        0 <= h < 24,
        0 <= m < 60,
    ensures
        calendar.times.has(h, m),
        calendar.names_day(day_number(year, month, day)) <==> exists|i: int|
            0 <= i < days.len() && (#[trigger] days[i]).index() == weekday_of(
                day_number(year, month, day),
            ),
{
    lemma_date_of(year, month, day);
    assert(calendar.months.has(month));
    lemma_day_set_decides(calendar, days, day_number(year, month, day));
    assert(calendar.times->hours.has(h) && calendar.times->minutes.has(m));
}

/// The offset in force at an instant is that of the last change that has happened by then,
/// and the first one before any has.
pub proof fn the_last_change_is_in_force(zone: Zone, i: int, at: int)
    requires
        0 <= i <= zone.changes@.len(),
        i > 0 ==> zone.changes@[i - 1].at <= at,
        forall|j: int| i <= j < zone.changes@.len() ==> (#[trigger] zone.changes@[j]).at > at,
    ensures
        zone.offset_at(at) == if i == 0 {
            zone.offset
        } else {
            zone.changes@[i - 1].offset
        },
{
    lemma_in_force(zone.offset, zone.changes@, i, at);
}

proof fn lemma_in_force(first: i32, changes: Seq<Change>, i: int, at: int)
    requires
        0 <= i <= changes.len(),
        i > 0 ==> changes[i - 1].at <= at,
        forall|j: int| i <= j < changes.len() ==> (#[trigger] changes[j]).at > at,
    ensures
        offset_among(first, changes, at) == if i == 0 {
            first
        } else {
            changes[i - 1].offset
        },
    decreases changes.len(),
{
    if i < changes.len() {
        assert(changes[changes.len() - 1].at > at);
        lemma_in_force(first, changes.drop_last(), i, at);
    }
}

/// The floor between two runs is the interval in whole seconds, and a quarter of an hour
/// where that is longer or there is no interval.
pub proof fn the_floor_is_the_interval(every: Duration)
    ensures
        900 <= duration_secs(every) <= i64::MAX ==> step_of(Some(every)) == duration_secs(every),
        duration_secs(every) <= 900 ==> step_of(Some(every)) == 900,
        step_of(None) == 900,
{
}

/// An interval alone is due that long after the last run, or now when that has gone by.
pub proof fn an_interval_is_due_that_long_after_the_last_run(
    every: Duration,
    last: Epoch,
    now: Epoch,
    zone: Zone,
)
    requires
        900 <= duration_secs(every) <= i64::MAX,
        last.0 + duration_secs(every) <= i64::MAX,
    ensures
        next_due(None, Some(every), Some(last), now, zone) is Some,
        now.0 < last.0 + duration_secs(every) ==> (next_due(
            None,
            Some(every),
            Some(last),
            now,
            zone,
        )->0).0 == last.0 + duration_secs(every),
        now.0 >= last.0 + duration_secs(every) ==> next_due(
            None,
            Some(every),
            Some(last),
            now,
            zone,
        ) == Some(now),
{
}

/// Where the last run came at or after an allowed minute and before the next one, the next
/// moment is now when the floor since that minute is over and another allowed minute has
/// gone by. Otherwise it is the first allowed minute that is neither before that floor, nor
/// before the run, nor before now. On a clock that does not change.
pub proof fn the_moment_after_a_run(
    calendar: Calendar,
    every: Option<Duration>,
    last: Epoch,
    grid_minute: int,
    now: Epoch,
    zone: Zone,
)
    requires
        zone.changes@.len() == 0,
        is_whole_offset(zone.offset),
        in_range(now.0 as int),
        in_range(last.0 as int),
        minute_allowed(calendar, zone, grid_minute),
        grid_minute * 60 <= last.0,
        forall|k: int|
            grid_minute < k && k * 60 <= last.0 ==> !(#[trigger] minute_allowed(
                calendar,
                zone,
                k,
            )),
    ensures
        ({
            let floor = grid_minute * 60 + step_of(every);
            let next = next_due(Some(calendar), every, Some(last), now, zone);
            let went_by = exists|k: int| #[trigger]
                minute_allowed(calendar, zone, k) && grid_minute < k && k * 60 <= now.0;
            &&& floor <= now.0 && last.0 <= now.0 && went_by ==> next == Some(now)
            &&& !(floor <= now.0 && last.0 <= now.0 && went_by) && floor <= i64::MAX ==> match next {
                Some(next) => {
                    &&& next.0 as int % 60 == 0
                    &&& minute_allowed(calendar, zone, next.0 as int / 60)
                    &&& next.0 >= floor && next.0 >= last.0 && next.0 >= now.0
                    &&& forall|k: int|
                        k * 60 >= floor && k * 60 >= last.0 && k * 60 >= now.0 && k * 60 < next.0
                            ==> !(#[trigger] minute_allowed(calendar, zone, k))
                },
                None => forall|k: int|
                    k * 60 >= floor && k * 60 >= last.0 && k * 60 >= now.0 ==> !(
                    #[trigger] minute_allowed(calendar, zone, k)),
            }
        }),
{
    a_clock_that_does_not_change_skips_nothing(calendar, zone);
    the_moment_served_is_the_last_one_allowed(calendar, zone, last);
    the_moment_served_is_not_after_the_run(calendar, zone, last);
    let at = served(calendar, zone, last);
    assert(at.0 == grid_minute * 60) by {
        assert(minute_allowed(calendar, zone, grid_minute));
        let s = at.0 as int / 60;
        assert(at.0 as int % 60 == 0 && minute_allowed(calendar, zone, s));
        assert(s * 60 == at.0);
    }
    assert(at.0 as int / 60 == grid_minute);
    the_next_moment_on_a_clock_that_does_not_change(calendar, every, Some(last), now, zone);
    let begin = ceil_minute(
        latest(grid_floor(calendar, zone, every, Some(last), now), now).0 as int,
    );
    assert(first_owed(calendar, zone, Some(last), now) == grid_minute + 1);
    assert forall|k: int|
        #![trigger minute_allowed(calendar, zone, k)]
        grid_minute * 60 + step_of(every) <= i64::MAX && k * 60 >= grid_minute * 60 + step_of(every)
            && k * 60 >= last.0 && k * 60 >= now.0 implies k >= begin by {}
}

/// With nothing behind it a calendar is due now in a minute it allows, and otherwise in the
/// first allowed minute to come. On a clock that does not change.
pub proof fn the_first_moment(
    calendar: Calendar,
    every: Option<Duration>,
    now: Epoch,
    zone: Zone,
)
    requires
        zone.changes@.len() == 0,
        is_whole_offset(zone.offset),
        in_range(now.0 as int),
    ensures
        minute_allowed(calendar, zone, now.0 as int / 60) ==> next_due(
            Some(calendar),
            every,
            None,
            now,
            zone,
        ) == Some(now),
        !minute_allowed(calendar, zone, now.0 as int / 60) ==> match next_due(
            Some(calendar),
            every,
            None,
            now,
            zone,
        ) {
            Some(next) => {
                &&& next.0 as int % 60 == 0
                &&& minute_allowed(calendar, zone, next.0 as int / 60)
                &&& next.0 >= now.0
                &&& forall|k: int|
                    now.0 <= k * 60 < next.0 ==> !(#[trigger] minute_allowed(calendar, zone, k))
            },
            None => forall|k: int|
                now.0 <= k * 60 ==> !(#[trigger] minute_allowed(calendar, zone, k)),
        },
{
    the_next_moment_on_a_clock_that_does_not_change(calendar, every, None, now, zone);
    let begin = ceil_minute(now.0 as int);
    assert(latest(grid_floor(calendar, zone, every, None, now), now) == now);
    assert(first_owed(calendar, zone, None, now) == now.0 as int / 60);
    assert forall|k: int|
        #![trigger minute_allowed(calendar, zone, k)]
        now.0 <= k * 60 implies k >= begin by {}
}

/// Of the whole intervals that went by since the last run, one is the run that is due and
/// the others were missed, counted up to a thousand.
pub proof fn every_interval_but_the_last_was_missed(
    every: Duration,
    last: Epoch,
    now: Epoch,
    zone: Zone,
    n: int,
)
    requires
        1 <= duration_secs(every) <= i64::MAX,
        0 <= now.0 - last.0 <= i64::MAX,
        n >= 0,
        n * duration_secs(every) <= now.0 - last.0 < (n + 1) * duration_secs(every),
    ensures
        missed(None, Some(every), Some(last), now, zone) == if n == 0 {
            0
        } else if n > 1_001 {
            1_000
        } else {
            n - 1
        },
{
    let d = duration_secs(every) as int;
    let x = now.0 - last.0;
    assert(x / d == n) by {
        assert(0 <= x - n * d < d) by (nonlinear_arith)
            requires
                n * d <= x < (n + 1) * d,
        ;
        assert(x == d * n + (x - n * d)) by (nonlinear_arith);
        vstd::arithmetic::div_mod::lemma_fundamental_div_mod_converse(x, d, n, x - n * d);
    }
}

/// Counting no further than a limit is counting, and then the limit.
proof fn lemma_counted(
    grid: Option<Calendar>,
    every: Option<Duration>,
    at: Epoch,
    now: Epoch,
    zone: Zone,
    most: nat,
)
    ensures
        moments_until(grid, every, at, now, zone, most) <= most,
        moments_until(grid, every, at, now, zone, most) == if moments_until(
            grid,
            every,
            at,
            now,
            zone,
            most + 1,
        ) > most {
            most
        } else {
            moments_until(grid, every, at, now, zone, most + 1)
        },
    decreases most,
{
    reveal_with_fuel(moments_until, 2);
    if most > 0 {
        if let Some(next) = next_due(grid, every, Some(at), at, zone) {
            if at.0 < next.0 <= now.0 {
                lemma_counted(grid, every, next, now, zone, (most - 1) as nat);
            }
        }
    }
}

/// On a calendar the run that is due is not counted as missed. Nothing was missed when the
/// moment after the last run is still to come, or the one after that is; otherwise one more
/// was missed than since that moment, up to a thousand.
pub proof fn every_moment_but_the_last_was_missed(
    calendar: Calendar,
    every: Option<Duration>,
    last: Epoch,
    now: Epoch,
    zone: Zone,
)
    ensures
        ({
            let first = next_due(Some(calendar), every, Some(last), last, zone);
            let count = missed(Some(calendar), every, Some(last), now, zone);
            if first is Some && last.0 < (first->0).0 <= now.0 {
                let second = next_due(Some(calendar), every, first, first->0, zone);
                let since = missed(Some(calendar), every, first, now, zone);
                if second is Some && (first->0).0 < (second->0).0 <= now.0 {
                    count == if since < 1_000 {
                        since + 1
                    } else {
                        1_000
                    }
                } else {
                    count == 0
                }
            } else {
                count == 0
            }
        }),
{
    let grid = Some(calendar);
    let most = (MAX_MISSED_COUNTED + 1) as nat;
    reveal_with_fuel(moments_until, 2);
    let first = next_due(grid, every, Some(last), last, zone);
    if first is Some && last.0 < (first->0).0 <= now.0 {
        lemma_counted(grid, every, first->0, now, zone, (most - 1) as nat);
    }
}

/// A run is moved by its share of the jitter: by none of it for a roll of nothing, by all
/// of it for a whole one, and by the whole seconds of the share in between.
pub proof fn a_roll_is_a_share_of_the_jitter(jitter: int, roll: u64)
    requires
        jitter >= 0,
    ensures
        rolled(jitter, 0) == 0,
        roll >= 1_000_000_000 ==> rolled(jitter, roll) == jitter,
        roll <= 1_000_000_000 ==> rolled(jitter, roll) * 1_000_000_000 <= jitter * roll < (rolled(
            jitter,
            roll,
        ) + 1) * 1_000_000_000,
{
    assert(jitter * 0 == 0) by (nonlinear_arith);
}

/// The room of a moment is all there is: whatever keeps clear of the floor before the next
/// moment, and of the next midnight where days are restricted, fits in it.
pub proof fn room_is_all_there_is(
    calendar: Calendar,
    every: Option<Duration>,
    due_at: Epoch,
    zone: Zone,
    spread: int,
)
    requires
        0 <= spread <= i64::MAX,
        next_due(Some(calendar), every, Some(due_at), due_at, zone) matches Some(next) ==> {
            &&& next.0 - due_at.0 <= i64::MAX
            &&& due_at.0 + spread + step_of(every) <= next.0
        },
        calendar.restricts_days() ==> (next_midnight(zone, due_at) matches Some(midnight)
            ==> due_at.0 + spread <= midnight),
    ensures
        spread <= room_at_moment(calendar, every, due_at, zone),
{
}

/// A jitter that fits the room of a schedule is kept, and a longer one is cut to the room.
pub proof fn a_jitter_is_cut_to_the_room(
    grid: Option<Calendar>,
    every: Option<Duration>,
    jitter: nat,
)
    ensures
        jitter <= room_nanos(grid, every) ==> fitted_nanos(grid, every, jitter) == jitter,
        jitter > room_nanos(grid, every) ==> fitted_nanos(grid, every, jitter) == room_nanos(
            grid,
            every,
        ),
{
}

/// The room of an interval is the interval. On a calendar it is what the tightest gap has
/// over the floor, none where the gap is no longer, and no more than what is left of the day
/// after its last moment where days are restricted.
pub proof fn the_room_of_a_schedule(
    calendar: Calendar,
    every: Option<Duration>,
    gap: int,
    left: int,
)
    requires
        calendar.is_tightest(gap),
        calendar.is_room_before_midnight(left),
    ensures
        every is Some ==> room_nanos(None, every) == duration_nanos(every->0),
        !calendar.restricts_days() && gap >= step_of(every) ==> room_nanos(Some(calendar), every)
            == (gap - step_of(every)) * 1_000_000_000,
        gap <= step_of(every) && left >= 0 ==> room_nanos(Some(calendar), every) == 0,
        calendar.restricts_days() && gap >= step_of(every) ==> {
            &&& room_nanos(Some(calendar), every) <= (gap - step_of(every)) * 1_000_000_000
            &&& room_nanos(Some(calendar), every) <= left * 1_000_000_000
            &&& room_nanos(Some(calendar), every) == (gap - step_of(every)) * 1_000_000_000
                || room_nanos(Some(calendar), every) == left * 1_000_000_000
        },
{
    calendar.lemma_room_to_midnight(left);
    let other = calendar.tightest()->0;
    assert(calendar.is_tightest(other));
    assert(calendar.has_gap(other) && calendar.has_gap(gap));
}

/// A run nobody set a jitter for is pushed by a tenth of its interval at most, but a minute
/// where that is longer and a quarter of an hour where that is shorter.
pub proof fn the_jitter_nobody_set(every: Duration)
    ensures
        default_jitter_nanos(None) == 900_000_000_000,
        duration_nanos(every) <= 600_000_000_000 ==> default_jitter_nanos(Some(every))
            == 60_000_000_000,
        600_000_000_000 <= duration_nanos(every) <= 9_000_000_000_000 ==> default_jitter_nanos(
            Some(every),
        ) == duration_nanos(every) / 10,
        duration_nanos(every) >= 9_000_000_000_000 ==> default_jitter_nanos(Some(every))
            == 900_000_000_000,
{
}

/// An interval can be run from a quarter of an hour to 366 days, with a calendar or without.
/// A calendar by itself can be run when no two of its moments are closer than a quarter of
/// an hour, in one day or, where its days can follow one another, across midnight.
pub proof fn what_can_be_run(calendar: Calendar, every: Duration, grid: Option<Calendar>)
    ensures
        is_runnable(grid, Some(every)) <==> 900 <= duration_secs(every) <= 366 * 86_400,
        !is_runnable(None, None),
        is_runnable(Some(calendar), None) <==> forall|a: int, b: int|
            #![trigger calendar.times.has_moment(a), calendar.times.has_moment(b)]
            calendar.times.has_moment(a) && calendar.times.has_moment(b) && a < b ==> {
                &&& b - a >= 900
                &&& calendar.days_can_follow() ==> 86_400 - b + a >= 900
            },
{
    if is_runnable(Some(calendar), None) {
        assert forall|a: int, b: int|
            #![trigger calendar.times.has_moment(a), calendar.times.has_moment(b)]
            calendar.times.has_moment(a) && calendar.times.has_moment(b) && a < b implies {
            &&& b - a >= 900
            &&& calendar.days_can_follow() ==> 86_400 - b + a >= 900
        } by {
            assert(calendar.has_gap(b - a));
            if calendar.days_can_follow() {
                assert(calendar.has_gap(86_400 - b + a));
            }
        }
    }
}

/// The days of a calendar that only names days of the week follow one another exactly when
/// two that are next to each other are named, Saturday and Sunday among them.
pub proof fn weekdays_that_follow_one_another(calendar: Calendar, no_weekday: int)
    requires
        forall|v: int| #[trigger] calendar.days_of_month.has(v) <==> 1 <= v <= 31,
        0 <= no_weekday <= 6 && !calendar.days_of_week.has(no_weekday),
    ensures
        calendar.days_can_follow() <==> {
            ||| calendar.days_of_week.has(0) && calendar.days_of_week.has(1)
            ||| calendar.days_of_week.has(1) && calendar.days_of_week.has(2)
            ||| calendar.days_of_week.has(2) && calendar.days_of_week.has(3)
            ||| calendar.days_of_week.has(3) && calendar.days_of_week.has(4)
            ||| calendar.days_of_week.has(4) && calendar.days_of_week.has(5)
            ||| calendar.days_of_week.has(5) && calendar.days_of_week.has(6)
            ||| calendar.days_of_week.has(6) && calendar.days_of_week.has(0)
        },
{
    assert(calendar.restricts_days_of_week());
    assert(!calendar.restricts_days_of_month());
    if calendar.days_can_follow() {
        let d = choose|d: int|
            0 <= d < 7 && #[trigger] calendar.days_of_week.has(d) && calendar.days_of_week.has(
                (d + 1) % 7,
            );
        assert(d == 0 || d == 1 || d == 2 || d == 3 || d == 4 || d == 5 || d == 6);
    }
    assert((0int + 1) % 7 == 1 && (5int + 1) % 7 == 6 && (6int + 1) % 7 == 0);
}

/// A run that was recorded no later than now is believed, and one recorded later counts as
/// having happened now.
pub proof fn a_run_in_the_past_is_believed(last: Epoch, now: Epoch)
    ensures
        last.0 <= now.0 ==> trusted(Some(last), now) == Some(last),
        last.0 > now.0 ==> trusted(Some(last), now) == Some(now),
        trusted(None, now) is None,
{
}

/// The next midnight is the end of the local day a moment is in: after the moment, at most a
/// day later, and a whole number of local days. On a clock that does not change.
pub proof fn the_next_midnight_ends_the_day(zone: Zone, at: Epoch)
    requires
        zone.changes@.len() == 0,
        -86_400 < zone.offset < 86_400,
        FIRST_SECOND + 172_800 <= at.0 <= LAST_SECOND - 172_800,
    ensures
        next_midnight(zone, at) matches Some(midnight) && at.0 < midnight <= at.0 + 86_400 && (
        midnight + zone.offset) % 86_400 == 0,
{
    let local = (zone.local(at.0 as int) / 86_400 + 1) * 86_400;
    let t = local - zone.offset;
    assert(zone.offset_at(at.0 as int) == zone.offset);
    assert(zone.offset_at(t) == zone.offset);
    assert(zone.shows(t, local));
    assert forall|other: int| #[trigger] zone.shows(other, local) implies t <= other by {
        assert(zone.offset_at(other) == zone.offset);
    }
    zone.lemma_first_showing(t, local);
    assert(local % 86_400 == 0);
}

/// The moments of a day are the seconds its allowed times begin at.
pub proof fn a_moment_is_where_an_allowed_time_begins(times: Times, h: int, m: int)
    requires
        0 <= h < 24,
        0 <= m < 60,
        times matches Times::Exact(list) ==> forall|i: int|
            0 <= i < list@.len() ==> (#[trigger] list@[i]).0 < 24 && list@[i].1 < 60,
    ensures
        times.has_moment(h * 3_600 + m * 60) <==> times.has(h, m),
{
    let second = h * 3_600 + m * 60;
    if times.has(h, m) {
        lemma_has_moment(times, h, m);
    }
    if times.has_moment(second) {
        match times {
            Times::Exact(list) => {
                let i = choose|i: int|
                    0 <= i < list@.len() && second == (#[trigger] list@[i]).0 * 3_600 + list@[i].1
                        * 60;
                assert(list@[i].0 == h && list@[i].1 == m);
            },
            Times::Crossed { minutes, hours } => {
                let (hour, minute) = choose|hour: int, minute: int|
                    #![trigger hours.has(hour), minutes.has(minute)]
                    0 <= hour < 24 && 0 <= minute < 60 && hours.has(hour) && minutes.has(minute)
                        && second == hour * 3_600 + minute * 60;
                assert(hour == h && minute == m);
            },
        }
    }
}

/// An hour and a minute are crossed where they stand in two fields, and taken as they are
/// where they stand in a list.
pub proof fn times_are_crossed_or_taken_as_they_are(
    crossed: Times,
    exact: Times,
    h: u32,
    m: u32,
)
    requires
        crossed is Crossed,
        exact is Exact,
    ensures
        crossed.has(h as int, m as int) <==> crossed->hours.has(h as int) && crossed->minutes.has(
            m as int,
        ),
        exact.has(h as int, m as int) <==> (exact->Exact_0)@.contains((h, m)),
{
    if let Times::Exact(list) = exact {
        if list@.contains((h, m)) {
            let i = choose|i: int| 0 <= i < list@.len() && list@[i] == (h, m);
            assert(list@[i].0 == h && list@[i].1 == m);
        }
        if exact.has(h as int, m as int) {
            let i = choose|i: int|
                0 <= i < list@.len() && (#[trigger] list@[i]).0 == h as int && list@[i].1
                    == m as int;
            assert(list@[i] == (h, m));
        }
    }
}

/// What is left of the day after its last moment is what there is up to midnight, and the
/// whole day where it has none.
pub proof fn what_is_left_of_the_day(calendar: Calendar, room: int, last: int)
    requires
        calendar.is_room_before_midnight(room),
    ensures
        calendar.times.has_moment(last) && (forall|second: int| #[trigger]
            calendar.times.has_moment(second) ==> second <= last) ==> room == 86_400 - last,
        (forall|second: int| !(#[trigger] calendar.times.has_moment(second))) ==> room == 86_400,
{
    if room != 86_400 {
        assert(calendar.times.has_moment(86_400 - room));
    }
}

/// The days of a calendar that only names days of the month follow one another exactly when
/// two that are next to each other are named, or the first and one a month can end with.
pub proof fn days_of_the_month_that_follow_one_another(calendar: Calendar, no_day: int, d: int)
    requires
        1 <= no_day <= 31 && !calendar.days_of_month.has(no_day),
        forall|v: int| #[trigger] calendar.days_of_week.has(v) <==> 0 <= v <= 6,
    ensures
        1 <= d < 31 && calendar.days_of_month.has(d) && calendar.days_of_month.has(d + 1)
            ==> calendar.days_can_follow(),
        calendar.days_of_month.has(1) && 28 <= d <= 31 && calendar.days_of_month.has(d)
            ==> calendar.days_can_follow(),
        (forall|e: int|
            1 <= e < 31 && #[trigger] calendar.days_of_month.has(e) ==> !calendar.days_of_month.has(
                e + 1,
            )) && !calendar.days_of_month.has(1) ==> !calendar.days_can_follow(),
{
    assert(calendar.restricts_days_of_month());
    assert(!calendar.restricts_days_of_week());
}

/// A schedule is refused for what is wrong with it: an interval that is too short or too long
/// as that, with the interval, and a calendar whose moments are too close for its tightest
/// gap.
pub proof fn what_a_schedule_is_refused_for(
    calendar: Calendar,
    grid: Option<Calendar>,
    every: Duration,
    gap: int,
    error: ScheduleError,
)
    requires
        calendar.is_tightest(gap),
        gap >= 0,
    ensures
        duration_secs(every) < 900 && is_refusal(grid, Some(every), error) ==> (error matches
        ScheduleError::TooOften { interval, minutes } && interval@ == spelling(
            duration_secs(every),
        ) && minutes == 15),
        duration_secs(every) > 31_622_400 && is_refusal(grid, Some(every), error) ==> (error matches
        ScheduleError::TooRare { interval, days } && interval@ == spelling(duration_secs(every))
            && days == 366),
        is_refusal(Some(calendar), None, error) ==> gap < 900 && (error matches
        ScheduleError::TooOften { interval, minutes } && interval@ == spelling(gap as nat)
            && minutes == 15),
        is_refusal(None, None, error) ==> error is Empty,
{
    let other = calendar.tightest()->0;
    assert(calendar.is_tightest(other));
    assert(calendar.has_gap(other) && calendar.has_gap(gap));
}

/// A wall-clock time that shows once is never refused for having been run.
pub proof fn a_time_that_shows_once_is_not_refused(zone: Zone, at: int, last_run: Option<Epoch>)
    requires
        zone.is_first_showing(at, zone.local(at)),
    ensures
        !already_run(zone, at, last_run),
{
    if already_run(zone, at, last_run) {
        let t = choose|t: int| #[trigger]
            zone.shows(t, zone.local(at)) && t < at && t <= (last_run->0).0;
        assert(at <= t);
    }
}

/// The days of a calendar are restricted when it leaves out any day of the month or of the
/// week, and not when it leaves out none. Where both are restricted, or neither is, its days
/// are taken to follow one another.
pub proof fn when_days_are_restricted(calendar: Calendar, v: int)
    ensures
        1 <= v <= 31 && !calendar.days_of_month.has(v) ==> calendar.restricts_days(),
        0 <= v <= 6 && !calendar.days_of_week.has(v) ==> calendar.restricts_days(),
        (forall|d: int| #[trigger] calendar.days_of_month.has(d) <==> 1 <= d <= 31) && (forall|
            d: int,
        | #[trigger]
            calendar.days_of_week.has(d) <==> 0 <= d <= 6) ==> !calendar.restricts_days()
            && calendar.days_can_follow(),
{
    if 1 <= v <= 31 && !calendar.days_of_month.has(v) {
        assert(calendar.restricts_days_of_month());
    }
    if 0 <= v <= 6 && !calendar.days_of_week.has(v) {
        assert(calendar.restricts_days_of_week());
    }
}

/// Where both day fields leave something out, days are taken to follow one another.
pub proof fn two_restricted_fields_may_meet(calendar: Calendar, no_day: int, no_weekday: int)
    requires
        1 <= no_day <= 31 && !calendar.days_of_month.has(no_day),
        0 <= no_weekday <= 6 && !calendar.days_of_week.has(no_weekday),
    ensures
        calendar.days_can_follow(),
        calendar.restricts_days(),
{
    assert(calendar.restricts_days_of_month());
    assert(calendar.restricts_days_of_week());
}

/// A time of day is an hour below twenty-four and a minute below sixty.
pub proof fn what_is_a_time_of_day(h: u32, m: u32)
    ensures
        is_time_of_day((h, m)) <==> h < 24 && m < 60,
{
}

/// A calendar with one moment a day has a day of room less the floor, and no more than what is
/// left of the day after it where days are restricted.
pub proof fn the_room_of_one_moment_a_day(calendar: Calendar, every: Option<Duration>, left: int)
    requires
        forall|gap: int| !(#[trigger] calendar.has_gap(gap)),
        calendar.is_room_before_midnight(left),
        step_of(every) <= 86_400,
    ensures
        !calendar.restricts_days() ==> room_nanos(Some(calendar), every) == (86_400 - step_of(
            every,
        )) * 1_000_000_000,
        calendar.restricts_days() && left <= 86_400 - step_of(every) ==> room_nanos(
            Some(calendar),
            every,
        ) == left * 1_000_000_000,
        calendar.restricts_days() && left >= 86_400 - step_of(every) ==> room_nanos(
            Some(calendar),
            every,
        ) == (86_400 - step_of(every)) * 1_000_000_000,
{
    calendar.lemma_room_to_midnight(left);
    if calendar.tightest() is Some {
        let gap = calendar.tightest()->0;
        assert(calendar.is_tightest(gap));
        assert(calendar.has_gap(gap));
    }
}

/// A schedule is due when its calendar and its interval are, both of them, and has the room its
/// calendar leaves. One without a calendar has no next moment to keep clear of.
pub proof fn a_schedule_is_its_calendar_and_its_interval(
    schedule: Schedule,
    last_run: Option<Epoch>,
    now: Epoch,
    zone: Zone,
)
    ensures
        schedule.next_due(last_run, now, zone) == next_due(
            schedule.grid(),
            schedule.interval(),
            last_run,
            now,
            zone,
        ),
        schedule.grid() matches Some(calendar) ==> schedule.room_nanos_at(now, zone)
            == room_at_moment(calendar, schedule.interval(), now, zone) * 1_000_000_000,
        schedule.grid() is None ==> schedule.room_nanos_at(now, zone) >= u64::MAX,
{
}

} // verus!
