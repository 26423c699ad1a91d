//! The evaluator: which moment comes next, and whether one is owed now.
//!
//! The floor, the search across the calendar in both directions, the count of
//! runs that went by unrun, and the jitter that keeps every copy of this tool
//! off the same round minute.
use std::time::Duration;
use vstd::prelude::*;

use super::calendar::Calendar;
use super::zone::{in_range, LocalTime, Zone};
use super::{shorter, step_of, step_secs, Due, Schedule, MIN_GAP_SECS};
use crate::clock::{
    clamped, duration_nanos, duration_secs, floor_div, floor_mod, spec_whole_seconds,
    whole_seconds, Epoch,
};

verus! {

/// How far a calendar is searched before it is called impossible: eight years,
/// in minutes. That is how far apart two leap days can be, around the turn of a
/// century that has none.
pub const HORIZON_MINUTES: i64 = 4_216_320;

/// The largest number of skipped runs worth counting exactly.
pub const MAX_MISSED_COUNTED: u32 = 1_000;

/// Which way a search walks the calendar.
#[derive(Debug, Clone, Copy, PartialEq, Eq, Structural)]
pub enum Direction {
    Forward,
    Backward,
}

impl Direction {
    /// How far a place is from another, this way.
    pub open spec fn distance(self, from: int, to: int) -> int {
        match self {
            Direction::Forward => to - from,
            Direction::Backward => from - to,
        }
    }

    /// How much of a reach is left at a place.
    pub open spec fn left(self, from: int, to: int, reach: int) -> nat {
        if self.distance(from, to) < reach {
            (reach - self.distance(from, to)) as nat
        } else {
            0
        }
    }

    fn gone(self, from: i64, to: i64) -> (r: i64)
        requires
            i64::MIN <= self.distance(from as int, to as int) <= i64::MAX,
        ensures
            r == self.distance(from as int, to as int),
    {
        match self {
            Direction::Forward => to - from,
            Direction::Backward => from - to,
        }
    }

    /// The next place, this way.
    pub open spec fn next(self, place: int) -> int {
        match self {
            Direction::Forward => place + 1,
            Direction::Backward => place - 1,
        }
    }
}

/// The first whole minute at or after a second.
pub open spec fn ceil_minute(second: int) -> int {
    if second % 60 == 0 {
        second / 60
    } else {
        second / 60 + 1
    }
}

/// Whether the calendar names the local day of a minute.
pub open spec fn minute_named(calendar: Calendar, zone: Zone, minute: int) -> bool {
    zone.readable(minute * 60) && calendar.names_day(zone.local(minute * 60) / 86_400)
}

/// Whether the calendar allows a minute.
pub open spec fn minute_allowed(calendar: Calendar, zone: Zone, minute: int) -> bool {
    zone.readable(minute * 60) && calendar.names_second(zone.local(minute * 60))
}

/// Whether an instant is the last showing of a wall-clock time whose first
/// showing the last run was not before.
pub open spec fn already_run(zone: Zone, at: int, last_run: Option<Epoch>) -> bool {
    &&& last_run matches Some(last)
    &&& zone.is_last_showing(at, zone.local(at))
    &&& exists|t: int| #[trigger] zone.shows(t, zone.local(at)) && t < at && t <= last.0
}

/// Whether a run may happen in a minute.
pub open spec fn minute_open(
    calendar: Calendar,
    zone: Zone,
    minute: int,
    last_run: Option<Epoch>,
) -> bool {
    minute_allowed(calendar, zone, minute) && !already_run(zone, minute * 60, last_run)
}

/// Where the search goes from a minute.
///
/// Past a local day that the calendar does not name in one step, to the first
/// minute the zone says the next day has or the last one the previous day has.
/// By one minute otherwise, and where the zone has no such instant or it would
/// not be a step that way.
pub open spec fn landing(
    calendar: Calendar,
    zone: Zone,
    minute: int,
    direction: Direction,
) -> int {
    if !zone.readable(minute * 60) || minute_named(calendar, zone, minute) {
        direction.next(minute)
    } else {
        let day = zone.local(minute * 60) / 86_400;
        match direction {
            Direction::Forward => match zone.first_showing((day + 1) * 86_400) {
                Some(t) => if ceil_minute(t) > minute {
                    ceil_minute(t)
                } else {
                    minute + 1
                },
                None => minute + 1,
            },
            Direction::Backward => match zone.last_showing(day * 86_400 - 60) {
                Some(t) => if t / 60 < minute {
                    t / 60
                } else {
                    minute - 1
                },
                None => minute - 1,
            },
        }
    }
}

/// The first minute the search meets that a run may happen in.
///
/// It walks from `minute`, and stops where it is `reach` minutes away from
/// where it began.
pub open spec fn search_from(
    calendar: Calendar,
    zone: Zone,
    begin: int,
    minute: int,
    direction: Direction,
    reach: int,
    last_run: Option<Epoch>,
) -> Option<int>
    decreases direction.left(begin, minute, reach),
{
    if direction.distance(begin, minute) >= reach {
        None
    } else if minute_open(calendar, zone, minute, last_run) {
        Some(minute)
    } else {
        search_from(
            calendar,
            zone,
            begin,
            landing(calendar, zone, minute, direction),
            direction,
            reach,
            last_run,
        )
    }
}

/// The first minute from a place on, in a direction and within a reach, that a
/// run may happen in.
pub open spec fn search(
    calendar: Calendar,
    zone: Zone,
    begin: int,
    direction: Direction,
    reach: int,
    last_run: Option<Epoch>,
) -> Option<int> {
    search_from(calendar, zone, begin, begin, direction, reach, last_run)
}

/// The minutes the search meets that are on a day the calendar names.
pub open spec fn named_from(
    calendar: Calendar,
    zone: Zone,
    begin: int,
    minute: int,
    direction: Direction,
    reach: int,
) -> Seq<int>
    decreases direction.left(begin, minute, reach),
{
    if direction.distance(begin, minute) >= reach {
        Seq::empty()
    } else {
        let rest = named_from(
            calendar,
            zone,
            begin,
            landing(calendar, zone, minute, direction),
            direction,
            reach,
        );
        if minute_named(calendar, zone, minute) {
            seq![minute] + rest
        } else {
            rest
        }
    }
}

fn minute_at_or_after(second: i64) -> (r: i64)
    ensures
        r == ceil_minute(second as int),
        -153_722_867_280_912_931 <= r <= 153_722_867_280_912_931,
{
    if floor_mod(second, 60) == 0 {
        floor_div(second, 60)
    } else {
        floor_div(second, 60) + 1
    }
}

/// What the wall clock reads at the start of a minute.
fn read_minute(zone: &Zone, minute: i64) -> (r: Option<LocalTime>)
    ensures
        r is Some <==> zone.readable(minute * 60),
        r is Some ==> r->0.reads(zone.local(minute * 60)),
        r is Some ==> -138_910_020_480 <= minute <= 136_837_781_279,
{
    if minute < -138_910_020_480 || minute > 136_837_781_279 {
        return None;
    }
    zone.read(minute * 60)
}

/// The first instant of the local day after the one an instant falls in.
fn first_instant_of_next_local_day(zone: &Zone, at: i64) -> (r: Option<i64>)
    requires
        zone.readable(at as int),
    ensures
        match r {
            Some(t) => zone.first_showing((zone.local(at as int) / 86_400 + 1) * 86_400) == Some(
                t as int,
            ) && in_range(t as int),
            None => zone.first_showing((zone.local(at as int) / 86_400 + 1) * 86_400) is None,
        },
{
    let local: i64 = zone.local_second(at);
    let midnight: i64 = (floor_div(local, 86_400) + 1) * 86_400;
    match zone.showings(midnight) {
        Some((first, last)) => {
            proof {
                zone.lemma_first_showing(first as int, midnight as int);
            }
            Some(first)
        },
        None => None,
    }
}

/// The last minute of the local day before the one an instant falls in.
fn last_instant_of_previous_local_day(zone: &Zone, at: i64) -> (r: Option<i64>)
    requires
        zone.readable(at as int),
    ensures
        match r {
            Some(t) => zone.last_showing(zone.local(at as int) / 86_400 * 86_400 - 60) == Some(
                t as int,
            ) && in_range(t as int),
            None => zone.last_showing(zone.local(at as int) / 86_400 * 86_400 - 60) is None,
        },
{
    let local: i64 = zone.local_second(at);
    let evening: i64 = floor_div(local, 86_400) * 86_400 - 60;
    match zone.showings(evening) {
        Some((first, last)) => {
            proof {
                zone.lemma_last_showing(last as int, evening as int);
            }
            Some(last)
        },
        None => None,
    }
}

/// Where the search goes from a minute, with what the wall clock reads there.
fn advance(
    calendar: &Calendar,
    zone: &Zone,
    minute: i64,
    reading: Option<LocalTime>,
    direction: Direction,
) -> (r: i64)
    requires
        i64::MIN < minute < i64::MAX,
        reading is Some <==> zone.readable(minute * 60),
        reading is Some ==> reading->0.reads(zone.local(minute * 60)),
        reading is Some ==> -138_910_020_480 <= minute <= 136_837_781_279,
    ensures
        r == landing(*calendar, *zone, minute as int, direction),
        direction.distance(minute as int, r as int) >= 1,
        reading is None ==> direction.distance(minute as int, r as int) == 1,
        reading is Some ==> -138_910_020_481 <= r <= 136_837_781_280,
{
    let one: i64 = match direction {
        Direction::Forward => minute + 1,
        Direction::Backward => minute - 1,
    };
    match reading {
        None => one,
        Some(at) => {
            if calendar.allows_day(&at) {
                return one;
            }
            match direction {
                Direction::Forward => match first_instant_of_next_local_day(zone, minute * 60) {
                    Some(t) => {
                        let there: i64 = minute_at_or_after(t);
                        if there > minute {
                            there
                        } else {
                            one
                        }
                    },
                    None => one,
                },
                Direction::Backward => match last_instant_of_previous_local_day(zone, minute * 60) {
                    Some(t) => {
                        let there: i64 = floor_div(t, 60);
                        if there < minute {
                            there
                        } else {
                            one
                        }
                    },
                    None => one,
                },
            }
        },
    }
}

/// The minutes from a place on, in a direction and within a reach, that fall on
/// a day the calendar names.
pub fn minutes_on_named_days(
    calendar: &Calendar,
    zone: &Zone,
    from: i64,
    direction: Direction,
    reach: i64,
) -> (v: Vec<i64>)
    requires
        -4_000_000_000_000_000_000 <= from <= 4_000_000_000_000_000_000,
        reach <= HORIZON_MINUTES,
    ensures
        v@.map_values(|m: i64| m as int) == named_from(
            *calendar,
            *zone,
            from as int,
            from as int,
            direction,
            reach as int,
        ),
{
    let mut v: Vec<i64> = Vec::new();
    let mut cursor: i64 = from;
    let ghost whole = named_from(
        *calendar,
        *zone,
        from as int,
        from as int,
        direction,
        reach as int,
    );
    assert(v@.map_values(|m: i64| m as int) + whole == whole);
    while direction.gone(from, cursor) < reach
        invariant
            -4_000_000_000_000_000_000 <= from <= 4_000_000_000_000_000_000,
            reach <= HORIZON_MINUTES,
            0 <= direction.distance(from as int, cursor as int) <= 600_000_000_000_000_000,
            whole == v@.map_values(|m: i64| m as int) + named_from(
                *calendar,
                *zone,
                from as int,
                cursor as int,
                direction,
                reach as int,
            ),
        decreases direction.left(from as int, cursor as int, reach as int),
    {
        let ghost before = v@.map_values(|m: i64| m as int);
        let reading = read_minute(zone, cursor);
        let next: i64 = advance(calendar, zone, cursor, reading, direction);
        let ghost rest = named_from(
            *calendar,
            *zone,
            from as int,
            next as int,
            direction,
            reach as int,
        );
        if let Some(at) = reading {
            if calendar.allows_day(&at) {
                v.push(cursor);
                assert(v@.map_values(|m: i64| m as int) == before.push(cursor as int));
                assert(before.push(cursor as int) + rest == before + (seq![cursor as int] + rest));
            }
        }
        cursor = next;
    }
    assert(v@.map_values(|m: i64| m as int) + Seq::<int>::empty() == v@.map_values(
        |m: i64| m as int,
    ));
    v
}

/// Whether an instant is the second showing of a wall-clock time the last run
/// already used.
fn already_run_at_this_wall_clock(zone: &Zone, at: i64, last_run: Option<Epoch>) -> (r: bool)
    requires
        zone.readable(at as int),
    ensures
        r == already_run(*zone, at as int, last_run),
{
    match last_run {
        None => false,
        Some(last) => {
            let local: i64 = zone.local_second(at);
            match zone.showings(local) {
                Some((first, second)) => {
                    let r = first != second && second == at && first <= last.0;
                    proof {
                        if r {
                            assert(zone.shows(first as int, local as int));
                        }
                        if already_run(*zone, at as int, last_run) {
                            let t = choose|t: int| #[trigger]
                                zone.shows(t, zone.local(at as int)) && t < at && t <= last.0;
                            assert(zone.shows(t, local as int));
                            assert(first <= t);
                            assert(zone.shows(second as int, local as int));
                            assert(zone.shows(at as int, local as int));
                        }
                    }
                    r
                },
                None => false,
            }
        },
    }
}

/// The first minute from a place on, in a direction and within a reach, that a
/// run may happen in.
fn find_open(
    calendar: &Calendar,
    zone: &Zone,
    from: i64,
    direction: Direction,
    reach: i64,
    last_run: Option<Epoch>,
) -> (r: Option<i64>)
    requires
        -4_000_000_000_000_000_000 <= from <= 4_000_000_000_000_000_000,
        reach <= HORIZON_MINUTES,
    ensures
        match r {
            Some(m) => search(*calendar, *zone, from as int, direction, reach as int, last_run)
                == Some(m as int) && -138_910_020_480 <= m <= 136_837_781_279,
            None => search(*calendar, *zone, from as int, direction, reach as int, last_run)
                is None,
        },
{
    let mut cursor: i64 = from;
    while direction.gone(from, cursor) < reach
        invariant
            -4_000_000_000_000_000_000 <= from <= 4_000_000_000_000_000_000,
            reach <= HORIZON_MINUTES,
            0 <= direction.distance(from as int, cursor as int) <= 600_000_000_000_000_000,
            search(*calendar, *zone, from as int, direction, reach as int, last_run)
                == search_from(
                *calendar,
                *zone,
                from as int,
                cursor as int,
                direction,
                reach as int,
                last_run,
            ),
        decreases direction.left(from as int, cursor as int, reach as int),
    {
        let reading = read_minute(zone, cursor);
        if let Some(at) = reading {
            if calendar.allows(&at) && !already_run_at_this_wall_clock(
                zone,
                cursor * 60,
                last_run,
            ) {
                return Some(cursor);
            }
        }
        cursor = advance(calendar, zone, cursor, reading, direction);
    }
    None
}

/// The moment on the grid that a run recorded at `last` was serving: the most
/// recent minute the calendar allows at or before it, and `last` itself when
/// there is none within the horizon.
pub open spec fn served(calendar: Calendar, zone: Zone, last: Epoch) -> Epoch {
    match search(
        calendar,
        zone,
        last.0 as int / 60,
        Direction::Backward,
        HORIZON_MINUTES as int,
        None,
    ) {
        Some(minute) => Epoch((minute * 60) as i64),
        None => last,
    }
}

/// The moment on the grid that a run recorded at `last` was serving.
pub fn moment_served(calendar: &Calendar, last: Epoch, zone: &Zone) -> (r: Epoch)
    ensures
        r == served(*calendar, *zone, last),
{
    match find_open(
        calendar,
        zone,
        floor_div(last.0, 60),
        Direction::Backward,
        HORIZON_MINUTES,
        None,
    ) {
        Some(minute) => Epoch(minute * 60),
        None => last,
    }
}

/// The earliest moment the next run may happen at, with a calendar.
///
/// The floor between two runs, counted from the moment the last run served, and
/// never before that run. With nothing behind it, now.
pub open spec fn grid_floor(
    calendar: Calendar,
    zone: Zone,
    every: Option<Duration>,
    last_run: Option<Epoch>,
    now: Epoch,
) -> Epoch {
    match last_run {
        Some(last) => {
            let floor = served(calendar, zone, last).later(step_of(every));
            if floor.0 > last.0 {
                floor
            } else {
                last
            }
        },
        None => now,
    }
}

/// The first minute in which a moment that went by is still owed: the one after
/// the moment the last run served or, with nothing behind it, this one.
pub open spec fn first_owed(
    calendar: Calendar,
    zone: Zone,
    last_run: Option<Epoch>,
    now: Epoch,
) -> int {
    match last_run {
        Some(last) => served(calendar, zone, last).0 as int / 60 + 1,
        None => now.0 as int / 60,
    }
}

/// Whether a moment that went by is owed now: the floor is behind, and between
/// the first minute that counts and this one there is one a run may happen in.
pub open spec fn is_owed(
    calendar: Calendar,
    zone: Zone,
    every: Option<Duration>,
    last_run: Option<Epoch>,
    now: Epoch,
) -> bool {
    let window = now.0 as int / 60 - first_owed(calendar, zone, last_run, now) + 1;
    let reach = if window < HORIZON_MINUTES {
        window
    } else {
        HORIZON_MINUTES as int
    };
    &&& grid_floor(calendar, zone, every, last_run, now).0 <= now.0
    &&& search(calendar, zone, now.0 as int / 60, Direction::Backward, reach, last_run) is Some
}

/// The later of two moments.
pub open spec fn latest(a: Epoch, b: Epoch) -> Epoch {
    if a.0 >= b.0 {
        a
    } else {
        b
    }
}

/// The next moment a calendar and an interval are due, at or after `now`.
///
/// Without a calendar, the interval after the last run. With one, now when a
/// moment that went by is owed, and otherwise the first minute past the floor
/// that a run may happen in.
pub open spec fn next_due(
    grid: Option<Calendar>,
    every: Option<Duration>,
    last_run: Option<Epoch>,
    now: Epoch,
    zone: Zone,
) -> Option<Epoch> {
    match grid {
        None => match last_run {
            Some(last) => Some(latest(last.later(step_of(every)), now)),
            None => Some(now),
        },
        Some(calendar) => if is_owed(calendar, zone, every, last_run, now) {
            Some(now)
        } else {
            match search(
                calendar,
                zone,
                ceil_minute(latest(grid_floor(calendar, zone, every, last_run, now), now).0 as int),
                Direction::Forward,
                HORIZON_MINUTES as int,
                last_run,
            ) {
                Some(minute) => Some(Epoch((minute * 60) as i64)),
                None => None,
            }
        },
    }
}

impl Schedule {
    /// The next moment this schedule is due.
    pub open spec fn next_due(self, last_run: Option<Epoch>, now: Epoch, zone: Zone) -> Option<
        Epoch,
    > {
        next_due(self.grid(), self.interval(), last_run, now, zone)
    }
}

/// The next moment this schedule is due, for somebody who wants to see it
/// rather than sleep until it. `None` when the calendar can never match: when it
/// names no minute that the zone has, from there on, within the horizon. A zone that
/// skips nothing the calendar names then has none at all.
pub fn next_moment(schedule: &Schedule, last_run: Option<Epoch>, now: Epoch, zone: &Zone) -> (r:
    Option<Epoch>)
    ensures
        r == schedule.next_due(last_run, now, *zone),
{
    next_after(schedule, last_run, now, zone)
}

fn later_by(at: Epoch, seconds: i64) -> (r: Epoch)
    requires
        seconds >= 0,
    ensures
        r == at.later(seconds as int),
{
    let sum: i128 = at.0 as i128 + seconds as i128;
    if sum > i64::MAX as i128 {
        Epoch(i64::MAX)
    } else {
        Epoch(sum as i64)
    }
}

/// The next moment this schedule is due after `now`.
pub fn next_after(schedule: &Schedule, last_run: Option<Epoch>, now: Epoch, zone: &Zone) -> (r:
    Option<Epoch>)
    ensures
        r == schedule.next_due(last_run, now, *zone),
{
    let step: i64 = step_secs(schedule.every);
    let calendar = match &schedule.calendar {
        None => {
            return match last_run {
                Some(last) => {
                    let floor = later_by(last, step);
                    Some(
                        if floor.0 >= now.0 {
                            floor
                        } else {
                            now
                        },
                    )
                },
                None => Some(now),
            };
        },
        Some(calendar) => calendar,
    };
    let this_minute: i64 = floor_div(now.0, 60);
    let (floor, earliest): (Epoch, i64) = match last_run {
        Some(last) => {
            let moment = moment_served(calendar, last, zone);
            let floor = later_by(moment, step);
            (
                if floor.0 > last.0 {
                    floor
                } else {
                    last
                },
                floor_div(moment.0, 60) + 1,
            )
        },
        None => (now, this_minute),
    };
    if floor.0 <= now.0 {
        let window: i64 = this_minute - earliest + 1;
        let reach: i64 = if window < HORIZON_MINUTES {
            window
        } else {
            HORIZON_MINUTES
        };
        if find_open(calendar, zone, this_minute, Direction::Backward, reach, last_run).is_some() {
            return Some(now);
        }
    }
    let from = if floor.0 >= now.0 {
        floor
    } else {
        now
    };
    match find_open(
        calendar,
        zone,
        minute_at_or_after(from.0),
        Direction::Forward,
        HORIZON_MINUTES,
        last_run,
    ) {
        Some(minute) => Some(Epoch(minute * 60)),
        None => None,
    }
}

/// The last run as it is trusted: a clock that went backwards leaves a run in
/// the future, and the present wins over it.
pub open spec fn trusted(last_run: Option<Epoch>, now: Epoch) -> Option<Epoch> {
    match last_run {
        Some(last) => Some(
            if last.0 <= now.0 {
                last
            } else {
                now
            },
        ),
        None => None,
    }
}

/// How many moments follow one another from a moment on, each the next due
/// after the one before, no later than `now`, counted no further than `most`.
pub open spec fn moments_until(
    grid: Option<Calendar>,
    every: Option<Duration>,
    at: Epoch,
    now: Epoch,
    zone: Zone,
    most: nat,
) -> nat
    decreases most,
{
    if most == 0 {
        0
    } else {
        match next_due(grid, every, Some(at), at, zone) {
            Some(next) => if at.0 < next.0 <= now.0 {
                1 + moments_until(grid, every, next, now, zone, (most - 1) as nat)
            } else {
                0
            },
            None => 0,
        }
    }
}

/// How many scheduled runs went by unrun, not counting the one due now.
///
/// With an interval alone, the whole intervals since the last run, less the one
/// that is due. With a calendar, the moments since the last run, less the one
/// that is due.
pub open spec fn missed(
    grid: Option<Calendar>,
    every: Option<Duration>,
    last_run: Option<Epoch>,
    now: Epoch,
    zone: Zone,
) -> int {
    match last_run {
        None => 0,
        Some(last) => match grid {
            None => match every {
                None => 0,
                Some(every) => {
                    let interval = if spec_whole_seconds(every) < 1 {
                        1
                    } else {
                        spec_whole_seconds(every) as int
                    };
                    let whole = clamped(now.0 - last.0) as int / interval;
                    if whole < 1 {
                        0
                    } else if whole - 1 > MAX_MISSED_COUNTED {
                        MAX_MISSED_COUNTED as int
                    } else {
                        whole - 1
                    }
                },
            },
            Some(_) => {
                let counted = moments_until(
                    grid,
                    every,
                    last,
                    now,
                    zone,
                    (MAX_MISSED_COUNTED + 1) as nat,
                );
                if counted == 0 {
                    0
                } else {
                    counted - 1
                }
            },
        },
    }
}

fn missed_since(schedule: &Schedule, last_run: Option<Epoch>, now: Epoch, zone: &Zone) -> (r: u32)
    requires
        last_run matches Some(last) ==> last.0 <= now.0,
    ensures
        r == missed(schedule.grid(), schedule.interval(), last_run, now, *zone),
        r <= MAX_MISSED_COUNTED,
{
    let last = match last_run {
        None => {
            return 0;
        },
        Some(last) => last,
    };
    if schedule.calendar.is_none() {
        return match schedule.every {
            None => 0,
            Some(every) => {
                let interval: i64 = whole_seconds(every);
                let interval: i64 = if interval < 1 {
                    1
                } else {
                    interval
                };
                let whole: i64 = (now - last) / interval;
                if whole < 1 {
                    0
                } else if whole - 1 > MAX_MISSED_COUNTED as i64 {
                    MAX_MISSED_COUNTED
                } else {
                    (whole - 1) as u32
                }
            },
        };
    }
    let ghost most = (MAX_MISSED_COUNTED + 1) as nat;
    let mut counted: u32 = 0;
    let mut at: Epoch = last;
    while counted <= MAX_MISSED_COUNTED
        invariant_except_break
            counted <= MAX_MISSED_COUNTED + 1,
            most == MAX_MISSED_COUNTED + 1,
            moments_until(schedule.grid(), schedule.interval(), last, now, *zone, most) == counted
                + moments_until(
                schedule.grid(),
                schedule.interval(),
                at,
                now,
                *zone,
                (most - counted) as nat,
            ),
        ensures
            counted <= MAX_MISSED_COUNTED + 1,
            counted == moments_until(
                schedule.grid(),
                schedule.interval(),
                last,
                now,
                *zone,
                most,
            ),
        decreases MAX_MISSED_COUNTED + 1 - counted,
    {
        match next_after(schedule, Some(at), at, zone) {
            Some(next) => {
                if next.0 <= now.0 && next.0 > at.0 {
                    counted = counted + 1;
                    at = next;
                } else {
                    break;
                }
            },
            None => {
                break;
            },
        }
    }
    if counted == 0 {
        0
    } else {
        counted - 1
    }
}

/// Whether a run is owed right now.
///
/// Missed runs are counted and folded into one, never replayed.
pub fn due(schedule: &Schedule, last_run: Option<Epoch>, now: Epoch, zone: &Zone) -> (r: Due)
    ensures
        r == match schedule.next_due(trusted(last_run, now), now, *zone) {
            None => Due::Never,
            Some(next) => if next.0 > now.0 {
                Due::At(next)
            } else {
                Due::Now {
                    missed: missed(
                        schedule.grid(),
                        schedule.interval(),
                        trusted(last_run, now),
                        now,
                        *zone,
                    ) as u32,
                }
            },
        },
        r matches Due::Now { missed } ==> missed <= MAX_MISSED_COUNTED,
{
    let last_run = match last_run {
        Some(last) => Some(
            if last.0 <= now.0 {
                last
            } else {
                now
            },
        ),
        None => None,
    };
    match next_after(schedule, last_run, now, zone) {
        None => Due::Never,
        Some(next) => {
            if next.0 > now.0 {
                Due::At(next)
            } else {
                Due::Now { missed: missed_since(schedule, last_run, now, zone) }
            }
        },
    }
}

/// One whole, in the parts a roll is counted in.
pub const WHOLE_ROLL: u64 = 1_000_000_000;

/// How many seconds of a jitter a roll takes. A roll above one whole counts as
/// one.
pub open spec fn rolled(jitter: int, roll: u64) -> int {
    if roll >= WHOLE_ROLL {
        jitter
    } else {
        jitter * roll / WHOLE_ROLL as int
    }
}

/// The moment to actually wake at, once jitter is applied.
///
/// `roll` is a part of one whole, in billionths, that the caller supplies.
/// Forward only: moving a run earlier could put it before its floor.
pub fn with_jitter(due_at: Epoch, jitter: Duration, roll: u64) -> (r: Epoch)
    ensures
        r == due_at.later(rolled(duration_secs(jitter) as int, roll)),
{
    let seconds: u64 = jitter.as_secs();
    let spread: u64 = if roll >= WHOLE_ROLL {
        seconds
    } else {
        proof {
            assert(0 <= seconds * roll <= seconds * 1_000_000_000) by (nonlinear_arith)
                requires
                    roll <= 1_000_000_000,
            ;
        }
        let product: u128 = seconds as u128 * roll as u128;
        assert(product == seconds * roll);
        let part: u128 = product / 1_000_000_000;
        assert(part <= seconds);
        part as u64
    };
    assert(spread == rolled(seconds as int, roll));
    let sum: i128 = due_at.0 as i128 + spread as i128;
    if sum > i64::MAX as i128 {
        Epoch(i64::MAX)
    } else {
        Epoch(sum as i64)
    }
}

/// The first instant of the local day after a moment.
pub open spec fn next_midnight(zone: Zone, at: Epoch) -> Option<int> {
    if zone.readable(at.0 as int) {
        zone.first_showing((zone.local(at.0 as int) / 86_400 + 1) * 86_400)
    } else {
        None
    }
}

/// The first instant of the local day after a moment, when the zone has one.
pub fn next_local_midnight(at: Epoch, zone: &Zone) -> (r: Option<Epoch>)
    ensures
        match r {
            Some(midnight) => next_midnight(*zone, at) == Some(midnight.0 as int),
            None => next_midnight(*zone, at) is None,
        },
{
    match zone.read(at.0) {
        None => None,
        Some(_) => match first_instant_of_next_local_day(zone, at.0) {
            Some(t) => Some(Epoch(t)),
            None => None,
        },
    }
}

/// A number of seconds, or none when it would be negative.
pub open spec fn or_none(seconds: int) -> int {
    if seconds < 0 {
        0
    } else {
        seconds
    }
}

/// The room a moment really has before the next one, in seconds.
///
/// Up to the next moment, less the floor between two runs, and no further than
/// the next local midnight when the days are restricted.
pub open spec fn room_at_moment(
    calendar: Calendar,
    every: Option<Duration>,
    due_at: Epoch,
    zone: Zone,
) -> int {
    let room = match next_due(Some(calendar), every, Some(due_at), due_at, zone) {
        Some(next) => or_none(clamped(next.0 - due_at.0) - step_of(every)),
        None => i64::MAX as int,
    };
    match next_midnight(zone, due_at) {
        Some(midnight) => if calendar.restricts_days() && or_none(midnight - due_at.0) < room {
            or_none(midnight - due_at.0)
        } else {
            room
        },
        None => room,
    }
}

impl Schedule {
    /// The room one particular moment really has, in nanoseconds. An interval
    /// has no grid to miss.
    pub open spec fn room_nanos_at(self, due_at: Epoch, zone: Zone) -> int {
        match self.grid() {
            None => u64::MAX * 1_000_000_000 + 999_999_999,
            Some(calendar) => room_at_moment(calendar, self.interval(), due_at, zone)
                * 1_000_000_000,
        }
    }

    /// The room one particular moment really has.
    pub fn room_at(&self, due_at: Epoch, zone: &Zone) -> (r: Duration)
        ensures
            duration_nanos(r) == self.room_nanos_at(due_at, *zone),
    {
        let calendar = match &self.calendar {
            None => {
                return Duration::new(u64::MAX, 999_999_999);
            },
            Some(calendar) => calendar,
        };
        let step: i64 = step_secs(self.every);
        let mut room: i64 = match next_after(self, Some(due_at), due_at, zone) {
            Some(next) => {
                let gap: i64 = next - due_at;
                if gap > step {
                    gap - step
                } else {
                    0
                }
            },
            None => i64::MAX,
        };
        if calendar.days_are_restricted() {
            if let Some(midnight) = next_local_midnight(due_at, zone) {
                let left: i128 = midnight.0 as i128 - due_at.0 as i128;
                let left: i128 = if left < 0 {
                    0
                } else {
                    left
                };
                if left < room as i128 {
                    room = left as i64;
                }
            }
        }
        Duration::from_secs(room as u64)
    }
}

/// The moment to wake at for a run due at `due_at`: the roll, capped to what
/// this moment really has room for.
pub fn wake_at(schedule: &Schedule, due_at: Epoch, roll: u64, zone: &Zone) -> (r: Epoch)
    ensures
        r == due_at.later(
            rolled(
                (if schedule.jitter_nanos() <= schedule.room_nanos_at(due_at, *zone) {
                    schedule.jitter_nanos() as int
                } else {
                    schedule.room_nanos_at(due_at, *zone)
                }) / 1_000_000_000,
                roll,
            ),
        ),
{
    let jitter = shorter(schedule.jitter(), schedule.room_at(due_at, zone));
    with_jitter(due_at, jitter, roll)
}

} // verus!
