//! What holds of every schedule, whatever the calendar and the zone.
use std::time::Duration;
use vstd::arithmetic::div_mod::lemma_mod_multiples_vanish;
use vstd::prelude::*;

use super::calendar::{Calendar, Times};
use super::next::{
    already_run, ceil_minute, first_owed, grid_floor, is_owed, landing, latest, minute_allowed,
    minute_named, minute_open, missed, next_due, next_midnight, or_none, rolled, room_at_moment,
    search, search_from, served, trusted, Direction, HORIZON_MINUTES, WHOLE_ROLL,
};
use super::parse::FieldSet;
use super::zone::{
    day_number, in_range, is_date, lemma_date_comes, lemma_date_of, lemma_day_after,
    lemma_leap_day_comes, lemma_some_date, month_days, offset_among, weekday_of, Change, Zone,
    FIRST_SECOND, LAST_SECOND,
};
use super::{step_of, MIN_GAP_SECS};
use crate::clock::{clamped, Epoch};

verus! {

/// What the search finds is a minute a run may happen in, on the way and within
/// reach.
pub proof fn what_is_found_is_open(
    calendar: Calendar,
    zone: Zone,
    begin: int,
    minute: int,
    direction: Direction,
    reach: int,
    last_run: Option<Epoch>,
)
    ensures
        search_from(calendar, zone, begin, minute, direction, reach, last_run) matches Some(found)
            ==> {
            &&& minute_open(calendar, zone, found, last_run)
            &&& direction.distance(minute, found) >= 0
            &&& direction.distance(begin, found) < reach
        },
    decreases direction.left(begin, minute, reach),
{
    if direction.distance(begin, minute) < reach && !minute_open(
        calendar,
        zone,
        minute,
        last_run,
    ) {
        what_is_found_is_open(
            calendar,
            zone,
            begin,
            landing(calendar, zone, minute, direction),
            direction,
            reach,
            last_run,
        );
    }
}

/// A moment that is due on a calendar is not before now and not before the
/// floor. It is now, or it is the start of a minute the calendar allows.
pub proof fn a_due_moment_is_on_the_grid_and_past_the_floor(
    calendar: Calendar,
    every: Option<Duration>,
    last_run: Option<Epoch>,
    now: Epoch,
    zone: Zone,
)
    ensures
        next_due(Some(calendar), every, last_run, now, zone) matches Some(next) ==> {
            &&& next.0 >= now.0
            &&& next.0 >= grid_floor(calendar, zone, every, last_run, now).0
            &&& next == now || (next.0 as int % 60 == 0 && minute_open(
                calendar,
                zone,
                next.0 as int / 60,
                last_run,
            ))
        },
{
    if !is_owed(calendar, zone, every, last_run, now) {
        let floor = grid_floor(calendar, zone, every, last_run, now);
        let begin = ceil_minute(latest(floor, now).0 as int);
        what_is_found_is_open(
            calendar,
            zone,
            begin,
            begin,
            Direction::Forward,
            HORIZON_MINUTES as int,
            last_run,
        );
        if let Some(minute) = search(
            calendar,
            zone,
            begin,
            Direction::Forward,
            HORIZON_MINUTES as int,
            last_run,
        ) {
            assert(zone.readable(minute * 60));
            assert((minute * 60) / 60 == minute);
        }
    }
}

/// A run that is owed now has a moment behind it: a minute a run may happen in,
/// after the moment the last run served and not after now.
pub proof fn a_run_owed_now_has_a_moment_behind_it(
    calendar: Calendar,
    every: Option<Duration>,
    last_run: Option<Epoch>,
    now: Epoch,
    zone: Zone,
)
    requires
        is_owed(calendar, zone, every, last_run, now),
    ensures
        exists|minute: int| #[trigger]
            minute_open(calendar, zone, minute, last_run) && first_owed(
                calendar,
                zone,
                last_run,
                now,
            ) <= minute <= now.0 as int / 60,
{
    let begin = now.0 as int / 60;
    let window = begin - first_owed(calendar, zone, last_run, now) + 1;
    let reach = if window < HORIZON_MINUTES {
        window
    } else {
        HORIZON_MINUTES as int
    };
    what_is_found_is_open(calendar, zone, begin, begin, Direction::Backward, reach, last_run);
    let found = search(calendar, zone, begin, Direction::Backward, reach, last_run)->0;
    assert(minute_open(calendar, zone, found, last_run));
}

/// The moment a run served is not after the run, and where there is one it is
/// the start of a minute the calendar allows.
pub proof fn the_moment_served_is_not_after_the_run(calendar: Calendar, zone: Zone, last: Epoch)
    ensures
        served(calendar, zone, last).0 <= last.0,
        served(calendar, zone, last) == last || (served(calendar, zone, last).0 as int % 60 == 0
            && minute_allowed(calendar, zone, served(calendar, zone, last).0 as int / 60)),
{
    let begin = last.0 as int / 60;
    what_is_found_is_open(
        calendar,
        zone,
        begin,
        begin,
        Direction::Backward,
        HORIZON_MINUTES as int,
        None,
    );
    if let Some(minute) = search(
        calendar,
        zone,
        begin,
        Direction::Backward,
        HORIZON_MINUTES as int,
        None,
    ) {
        assert(zone.readable(minute * 60));
        assert((minute * 60) / 60 == minute);
    }
}

/// A run recorded at the start of a minute the calendar allows was serving that
/// minute.
pub proof fn a_run_on_the_grid_serves_its_own_minute(calendar: Calendar, zone: Zone, at: Epoch)
    requires
        at.0 as int % 60 == 0,
        minute_allowed(calendar, zone, at.0 as int / 60),
    ensures
        served(calendar, zone, at) == at,
{
    let minute = at.0 as int / 60;
    assert(minute * 60 == at.0);
    assert(minute_open(calendar, zone, minute, None));
}

/// An interval alone is measured from the previous run: the next moment is the
/// floor after it, or now when that has gone by.
pub proof fn an_interval_is_measured_from_the_last_run(
    every: Duration,
    last: Epoch,
    now: Epoch,
    zone: Zone,
)
    requires
        last.0 + step_of(Some(every)) <= i64::MAX,
    ensures
        next_due(None, Some(every), Some(last), now, zone) == Some(
            latest(Epoch((last.0 + step_of(Some(every))) as i64), now),
        ),
{
}

/// A run stored in the future costs at most one floor: it counts as having
/// happened now.
pub proof fn a_stored_future_costs_at_most_one_floor(
    every: Option<Duration>,
    last: Epoch,
    now: Epoch,
    zone: Zone,
)
    requires
        last.0 > now.0,
        now.0 + step_of(every) <= i64::MAX,
    ensures
        trusted(Some(last), now) == Some(now),
        next_due(None, every, trusted(Some(last), now), now, zone) == Some(
            Epoch((now.0 + step_of(every)) as i64),
        ),
{
}

/// With nothing behind it, an interval is due at once.
pub proof fn a_first_run_is_due_at_once(every: Option<Duration>, now: Epoch, zone: Zone)
    ensures
        next_due(None, every, None, now, zone) == Some(now),
        missed(None, every, None, now, zone) == 0,
{
}

/// Of a wall-clock time that shows twice, the second showing is refused once
/// the first has been run, and only then.
pub proof fn a_repeated_time_runs_once(zone: Zone, first: int, second: int, last: Epoch)
    requires
        zone.is_first_showing(first, zone.local(second)),
        zone.is_last_showing(second, zone.local(second)),
        first < second,
    ensures
        already_run(zone, second, Some(last)) <==> first <= last.0,
        !already_run(zone, second, None),
        !already_run(zone, first, Some(last)),
{
    let local = zone.local(second);
    if first <= last.0 {
        assert(zone.shows(first, local));
    }
    if already_run(zone, second, Some(last)) {
        let t = choose|t: int| #[trigger] zone.shows(t, local) && t < second && t <= last.0;
        assert(first <= t);
    }
    if already_run(zone, first, Some(last)) {
        assert(zone.local(first) == local);
        let t = choose|t: int| #[trigger]
            zone.shows(t, zone.local(first)) && t < first && t <= last.0;
        assert(zone.shows(t, local));
    }
}

/// A run is woken at its moment or after it, and no later than the whole of its
/// jitter.
pub proof fn jitter_only_moves_a_run_later(due_at: Epoch, jitter: int, roll: u64)
    requires
        jitter >= 0,
    ensures
        due_at.0 <= due_at.later(rolled(jitter, roll)).0 <= due_at.later(jitter).0,
{
    if roll < WHOLE_ROLL {
        assert(0 <= jitter * roll <= jitter * 1_000_000_000) by (nonlinear_arith)
            requires
                jitter >= 0,
                0 <= roll <= 1_000_000_000,
        ;
    }
}

/// A run due on its own minute and woken within the room that minute has does
/// not come inside the floor of the next one.
pub proof fn room_leaves_the_next_moment_alone(
    calendar: Calendar,
    every: Option<Duration>,
    due_at: Epoch,
    zone: Zone,
    spread: int,
)
    requires
        due_at.0 as int % 60 == 0,
        minute_allowed(calendar, zone, due_at.0 as int / 60),
        due_at.0 + step_of(every) <= i64::MAX,
        0 <= spread <= room_at_moment(calendar, every, due_at, zone),
    ensures
        next_due(Some(calendar), every, Some(due_at), due_at, zone) matches Some(next)
            ==> due_at.later(spread).0 + step_of(every) <= next.0,
{
    a_run_on_the_grid_serves_its_own_minute(calendar, zone, due_at);
    a_due_moment_is_on_the_grid_and_past_the_floor(calendar, every, Some(due_at), due_at, zone);
}

/// A run woken within the room its moment has is woken before the next local
/// midnight when the days are restricted, or at it.
pub proof fn room_ends_at_midnight(
    calendar: Calendar,
    every: Option<Duration>,
    due_at: Epoch,
    zone: Zone,
    spread: int,
)
    requires
        calendar.restricts_days(),
        0 <= spread <= room_at_moment(calendar, every, due_at, zone),
    ensures
        next_midnight(zone, due_at) matches Some(midnight) ==> midnight >= due_at.0
            ==> due_at.later(spread).0 <= midnight,
{
}

/// A zone whose local days come in order.
///
/// Its offsets are whole minutes, a local day never comes back once another has
/// begun, and midnight and the minute before it, where a day has them, are its
/// first and its last.
pub open spec fn days_in_order(zone: Zone) -> bool {
    &&& forall|t: int| #[trigger] zone.readable(t) ==> zone.offset_at(t) % 60 == 0
    &&& forall|a: int, b: int|
        #![trigger zone.readable(a * 60), zone.readable(b * 60)]
        a < b && zone.readable(a * 60) && zone.readable(b * 60) ==> {
            let (x, y) = (zone.local(a * 60), zone.local(b * 60));
            &&& x / 86_400 <= y / 86_400
            &&& x / 86_400 == y / 86_400 && y % 86_400 == 0 ==> x == y
            &&& x / 86_400 == y / 86_400 && x % 86_400 == 86_340 ==> x == y
        }
}

/// Whether an offset is a whole number of minutes, and less than a day.
pub open spec fn is_whole_offset(offset: i32) -> bool {
    offset % 60 == 0 && -86_400 < offset < 86_400
}

/// The offset in force behind some changes.
pub open spec fn last_offset(first: i32, changes: Seq<Change>) -> i32 {
    if changes.len() == 0 {
        first
    } else {
        changes.last().offset
    }
}

/// Whether a clock that goes back shows again only what lies inside one local
/// day, neither its midnight nor its last minute.
pub open spec fn goes_back_inside_a_day(change: Change, before: i32) -> bool {
    let from = change.at + change.offset;
    let to = change.at + before - 60;
    from / 86_400 == to / 86_400 && from % 86_400 > 0 && to % 86_400 < 86_340
}

/// Whether these are the changes of an ordinary zone: on the minute, one after
/// another, each of them forward or back inside one day.
pub open spec fn ordinary_changes(first: i32, changes: Seq<Change>) -> bool
    decreases changes.len(),
{
    if changes.len() == 0 {
        is_whole_offset(first)
    } else {
        let change = changes.last();
        let earlier = changes.drop_last();
        let before = last_offset(first, earlier);
        &&& ordinary_changes(first, earlier)
        &&& earlier.len() > 0 ==> earlier.last().at < change.at
        &&& change.at as int % 60 == 0
        &&& is_whole_offset(change.offset)
        &&& change.offset >= before || goes_back_inside_a_day(change, before)
    }
}

proof fn lemma_last_offset(first: i32, changes: Seq<Change>, at: int)
    requires
        changes.len() > 0 ==> changes.last().at <= at,
    ensures
        offset_among(first, changes, at) == last_offset(first, changes),
{
}

proof fn lemma_whole_offsets(first: i32, changes: Seq<Change>, at: int)
    requires
        ordinary_changes(first, changes),
    ensures
        is_whole_offset(offset_among(first, changes, at)),
    decreases changes.len(),
{
    if changes.len() > 0 {
        lemma_whole_offsets(first, changes.drop_last(), at);
    }
}

/// Whether two local seconds come in the order of their days, midnight first and
/// the last minute last.
spec fn in_day_order(x: int, y: int) -> bool {
    &&& x / 86_400 <= y / 86_400
    &&& x / 86_400 == y / 86_400 && y % 86_400 == 0 ==> x == y
    &&& x / 86_400 == y / 86_400 && x % 86_400 == 86_340 ==> x == y
}

proof fn lemma_day_order(first: i32, changes: Seq<Change>, a: int, b: int)
    requires
        ordinary_changes(first, changes),
        a < b,
    ensures
        in_day_order(
            a * 60 + offset_among(first, changes, a * 60),
            b * 60 + offset_among(first, changes, b * 60),
        ),
    decreases changes.len(),
{
    if changes.len() > 0 {
        let change = changes.last();
        let earlier = changes.drop_last();
        let before = last_offset(first, earlier);
        lemma_whole_offsets(first, earlier, a * 60);
        if b * 60 < change.at {
            lemma_day_order(first, earlier, a, b);
        } else if a * 60 < change.at {
            let m = change.at as int / 60 - 1;
            assert(m * 60 == change.at - 60);
            lemma_last_offset(first, earlier, m * 60);
            let x = a * 60 + offset_among(first, earlier, a * 60);
            let z = m * 60 + before;
            if a < m {
                lemma_day_order(first, earlier, a, m);
            }
            assert(in_day_order(x, z) || x == z);
        }
    }
}

/// The days of an ordinary zone come in order: one whose clock goes forward, or
/// back inside a day, as summer time has it.
pub proof fn an_ordinary_zone_has_its_days_in_order(zone: Zone)
    requires
        ordinary_changes(zone.offset, zone.changes@),
    ensures
        days_in_order(zone),
{
    assert forall|t: int| #[trigger] zone.readable(t) implies zone.offset_at(t) % 60 == 0 by {
        lemma_whole_offsets(zone.offset, zone.changes@, t);
    }
    assert forall|a: int, b: int|
        #![trigger zone.readable(a * 60), zone.readable(b * 60)]
        a < b && zone.readable(a * 60) && zone.readable(b * 60) implies {
        let (x, y) = (zone.local(a * 60), zone.local(b * 60));
        &&& x / 86_400 <= y / 86_400
        &&& x / 86_400 == y / 86_400 && y % 86_400 == 0 ==> x == y
        &&& x / 86_400 == y / 86_400 && x % 86_400 == 86_340 ==> x == y
    } by {
        lemma_day_order(zone.offset, zone.changes@, a, b);
    }
}

/// Where days come in order, the search steps over no minute of a day the
/// calendar names.
pub proof fn no_named_minute_is_stepped_over(
    calendar: Calendar,
    zone: Zone,
    minute: int,
    direction: Direction,
    between: int,
)
    requires
        days_in_order(zone),
        0 < direction.distance(minute, between) < direction.distance(
            minute,
            landing(calendar, zone, minute, direction),
        ),
    ensures
        !minute_named(calendar, zone, between),
{
    if minute_named(calendar, zone, between) {
        let day = zone.local(minute * 60) / 86_400;
        assert(zone.readable(minute * 60));
        assert(zone.readable(between * 60));
        match direction {
            Direction::Forward => {
                let midnight = (day + 1) * 86_400;
                let t = zone.first_showing(midnight)->0;
                let witness = choose|t: int| #[trigger] zone.is_first_showing(t, midnight);
                assert(zone.is_first_showing(t, midnight));
                assert(zone.shows(t, midnight));
                assert(zone.readable(t));
                let m = t / 60;
                assert(m * 60 == t);
                assert(zone.readable(m * 60));
                if zone.local(between * 60) / 86_400 == day + 1 {
                    assert(zone.local(between * 60) == midnight);
                    assert(zone.shows(between * 60, midnight));
                }
            },
            Direction::Backward => {
                let evening = day * 86_400 - 60;
                let t = zone.last_showing(evening)->0;
                let witness = choose|t: int| #[trigger] zone.is_last_showing(t, evening);
                assert(zone.is_last_showing(t, evening));
                assert(zone.shows(t, evening));
                assert(zone.readable(t));
                let m = t / 60;
                assert(m * 60 == t);
                assert(zone.readable(m * 60));
                if zone.local(between * 60) / 86_400 == day - 1 {
                    assert(zone.local(between * 60) == evening);
                    assert(zone.shows(between * 60, evening));
                }
            },
        }
    }
}

/// Where days come in order, the search finds the first minute a run may happen
/// in, as a walk of every minute would.
pub proof fn the_search_misses_nothing(
    calendar: Calendar,
    zone: Zone,
    begin: int,
    minute: int,
    direction: Direction,
    reach: int,
    last_run: Option<Epoch>,
)
    requires
        days_in_order(zone),
        direction.distance(begin, minute) >= 0,
    ensures
        match search_from(calendar, zone, begin, minute, direction, reach, last_run) {
            Some(found) => {
                &&& minute_open(calendar, zone, found, last_run)
                &&& 0 <= direction.distance(minute, found)
                &&& direction.distance(begin, found) < reach
                &&& forall|k: int|
                    0 <= direction.distance(minute, k) < direction.distance(minute, found)
                        ==> !(#[trigger] minute_open(calendar, zone, k, last_run))
            },
            None => forall|k: int|
                0 <= direction.distance(minute, k) && direction.distance(begin, k) < reach ==> !(
                #[trigger] minute_open(calendar, zone, k, last_run)),
        },
    decreases direction.left(begin, minute, reach),
{
    if direction.distance(begin, minute) < reach && !minute_open(
        calendar,
        zone,
        minute,
        last_run,
    ) {
        let next = landing(calendar, zone, minute, direction);
        the_search_misses_nothing(calendar, zone, begin, next, direction, reach, last_run);
        assert forall|k: int|
            0 <= direction.distance(minute, k) < direction.distance(minute, next) implies !(
        #[trigger] minute_open(calendar, zone, k, last_run)) by {
            if k != minute {
                no_named_minute_is_stepped_over(calendar, zone, minute, direction, k);
            }
        }
    }
}

/// Where days come in order, a moment that is due on a calendar and not now is
/// the first minute past the floor that a run may happen in; and when none is
/// due, there is no such minute within the horizon.
pub proof fn the_next_moment_is_the_first_one_open(
    calendar: Calendar,
    every: Option<Duration>,
    last_run: Option<Epoch>,
    now: Epoch,
    zone: Zone,
)
    requires
        days_in_order(zone),
        !is_owed(calendar, zone, every, last_run, now),
    ensures
        ({
            let begin = ceil_minute(
                latest(grid_floor(calendar, zone, every, last_run, now), now).0 as int,
            );
            match next_due(Some(calendar), every, last_run, now, zone) {
                Some(next) => forall|k: int|
                    begin <= k < next.0 as int / 60 ==> !(#[trigger] minute_open(
                        calendar,
                        zone,
                        k,
                        last_run,
                    )),
                None => forall|k: int|
                    begin <= k < begin + HORIZON_MINUTES ==> !(#[trigger] minute_open(
                        calendar,
                        zone,
                        k,
                        last_run,
                    )),
            }
        }),
{
    let begin = ceil_minute(latest(grid_floor(calendar, zone, every, last_run, now), now).0 as int);
    the_search_misses_nothing(
        calendar,
        zone,
        begin,
        begin,
        Direction::Forward,
        HORIZON_MINUTES as int,
        last_run,
    );
    if let Some(minute) = search(
        calendar,
        zone,
        begin,
        Direction::Forward,
        HORIZON_MINUTES as int,
        last_run,
    ) {
        assert(zone.readable(minute * 60));
        assert((minute * 60) / 60 == minute);
    }
}

/// From any day on, a day that a calendar names comes again within eight years.
pub proof fn a_named_day_comes_again(calendar: Calendar, number: int, from: int)
    requires
        calendar.names_day(number),
    ensures
        exists|again: int| #[trigger]
            calendar.names_day(again) && from <= again <= from + 2_920,
{
    let (year, month, day) = lemma_some_date(number);
    lemma_date_of(year, month, day);
    let weekday = weekday_of(number);
    if calendar.restricts_days_of_week() && calendar.days_of_week.has(weekday) {
        let y = lemma_date_comes(from, month, 1);
        let first = day_number(y, month, 1);
        let ahead = (weekday - weekday_of(first)) % 7;
        lemma_date_of(y, month, 1 + ahead);
        let again = first + ahead;
        assert(again == day_number(y, month, 1 + ahead));
        assert(weekday_of(again) == weekday);
        assert(calendar.names_day(again));
    } else {
        let y = if month == 2 && day == 29 {
            lemma_leap_day_comes(from)
        } else {
            lemma_date_comes(from, month, day)
        };
        lemma_date_of(y, month, day);
        assert(calendar.names_day(day_number(y, month, day)));
    }
}

/// Whether a zone has every minute that a calendar names: none of them is in an
/// hour that the clock skips.
pub open spec fn skips_nothing(calendar: Calendar, zone: Zone) -> bool {
    forall|local: int|
        #![trigger calendar.names_second(local)]
        FIRST_SECOND + 172_800 <= local <= LAST_SECOND - 172_800 && local % 60 == 0
            && calendar.names_second(local) ==> exists|t: int| #[trigger] zone.shows(t, local)
}

/// A clock that does not change skips nothing, whatever the calendar, and has its
/// days in order.
pub proof fn a_clock_that_does_not_change_skips_nothing(calendar: Calendar, zone: Zone)
    requires
        zone.changes@.len() == 0,
        is_whole_offset(zone.offset),
    ensures
        skips_nothing(calendar, zone),
        days_in_order(zone),
{
    an_ordinary_zone_has_its_days_in_order(zone);
    assert forall|local: int|
        #![trigger calendar.names_second(local)]
        FIRST_SECOND + 172_800 <= local <= LAST_SECOND - 172_800 && local % 60 == 0
            && calendar.names_second(local) implies exists|t: int| #[trigger]
        zone.shows(t, local) by {
        assert(zone.shows(local - zone.offset, local));
    }
}

/// Where a calendar allows a minute and a zone skips nothing it names, it allows one
/// within eight years of any day.
proof fn lemma_allowed_again(calendar: Calendar, zone: Zone, minute: int, from: int) -> (again: int)
    requires
        days_in_order(zone),
        skips_nothing(calendar, zone),
        minute_allowed(calendar, zone, minute),
        FIRST_SECOND + 172_800 <= from * 86_400,
        (from + 2_921) * 86_400 <= LAST_SECOND - 172_800,
    ensures
        minute_allowed(calendar, zone, again),
        (from - 1) * 86_400 < again * 60 < (from + 2_922) * 86_400,
{
    let local = zone.local(minute * 60);
    a_named_day_comes_again(calendar, local / 86_400, from);
    let day = choose|again: int| #[trigger]
        calendar.names_day(again) && from <= again <= from + 2_920;
    let there = day * 86_400 + local % 86_400;
    lemma_remainders(day, local % 86_400);
    lemma_remainders(local / 86_400, local % 86_400);
    assert(local == local / 86_400 * 86_400 + local % 86_400);
    assert(zone.readable(minute * 60));
    assert(local % 60 == 0);
    assert(calendar.names_second(there));
    let t = choose|t: int| #[trigger] zone.shows(t, there);
    assert(zone.readable(t));
    assert(t % 60 == 0);
    assert(t / 60 * 60 == t);
    t / 60
}

/// A wall-clock time that shows more than two days after the last run was not run
/// at an earlier showing.
proof fn lemma_not_run_before(zone: Zone, at: int, last_run: Option<Epoch>)
    requires
        zone.readable(at),
        last_run matches Some(last) ==> last.0 + 172_800 <= at,
    ensures
        !already_run(zone, at, last_run),
{
    if already_run(zone, at, last_run) {
        let t = choose|t: int| #[trigger]
            zone.shows(t, zone.local(at)) && t < at && t <= (last_run->0).0;
        assert(zone.readable(t));
    }
}

/// Nothing is due only when nothing ever is: where days come in order and the zone
/// skips nothing the calendar names, a schedule that has no next moment has none at
/// any time past the floor, within the horizon or after it.
pub proof fn nothing_is_due_only_when_nothing_ever_is(
    calendar: Calendar,
    every: Option<Duration>,
    last_run: Option<Epoch>,
    now: Epoch,
    zone: Zone,
)
    requires
        days_in_order(zone),
        skips_nothing(calendar, zone),
        in_range(now.0 as int),
        next_due(Some(calendar), every, last_run, now, zone) is None,
    ensures
        forall|k: int|
            k >= ceil_minute(
                latest(grid_floor(calendar, zone, every, last_run, now), now).0 as int,
            ) ==> !(#[trigger] minute_open(calendar, zone, k, last_run)),
{
    let floor = grid_floor(calendar, zone, every, last_run, now);
    let begin = ceil_minute(latest(floor, now).0 as int);
    the_next_moment_is_the_first_one_open(calendar, every, last_run, now, zone);
    assert forall|k: int| k >= begin implies !(#[trigger] minute_open(
        calendar,
        zone,
        k,
        last_run,
    )) by {
        if k >= begin + HORIZON_MINUTES && minute_open(calendar, zone, k, last_run) {
            assert(in_range(k * 60));
            let again = lemma_allowed_again(calendar, zone, k, begin * 60 / 86_400 + 4);
            lemma_not_run_before(zone, again * 60, last_run);
            assert(minute_open(calendar, zone, again, last_run));
        }
    }
}

/// The moment a run served is the last one the calendar allows that is not after
/// it, and the run itself only where there never was one; where days come in order
/// and the zone skips nothing the calendar names.
pub proof fn the_moment_served_is_the_last_one_allowed(calendar: Calendar, zone: Zone, last: Epoch)
    requires
        days_in_order(zone),
        skips_nothing(calendar, zone),
        in_range(last.0 as int),
    ensures
        forall|k: int|
            served(calendar, zone, last).0 < k * 60 <= last.0 ==> !(#[trigger] minute_allowed(
                calendar,
                zone,
                k,
            )),
        (exists|k: int| k * 60 <= last.0 && #[trigger] minute_allowed(calendar, zone, k)) ==> {
            &&& served(calendar, zone, last).0 as int % 60 == 0
            &&& minute_allowed(calendar, zone, served(calendar, zone, last).0 as int / 60)
        },
        (forall|k: int| k * 60 <= last.0 ==> !(#[trigger] minute_allowed(calendar, zone, k)))
            ==> served(calendar, zone, last) == last,
{
    let begin = last.0 as int / 60;
    the_moment_served_is_not_after_the_run(calendar, zone, last);
    the_search_misses_nothing(
        calendar,
        zone,
        begin,
        begin,
        Direction::Backward,
        HORIZON_MINUTES as int,
        None,
    );
    let found = search(
        calendar,
        zone,
        begin,
        Direction::Backward,
        HORIZON_MINUTES as int,
        None,
    );
    assert forall|k: int| k * 60 <= last.0 && found is None implies !(#[trigger] minute_allowed(
        calendar,
        zone,
        k,
    )) by {
        assert(!minute_open(calendar, zone, k, None) || k <= begin - HORIZON_MINUTES);
        if minute_allowed(calendar, zone, k) {
            let again = lemma_allowed_again(calendar, zone, k, begin * 60 / 86_400 - 2_923);
            assert(minute_open(calendar, zone, again, None));
        }
    }
    if found is Some {
        let minute = found->0;
        assert(zone.readable(minute * 60));
        assert((minute * 60) / 60 == minute);
        assert forall|k: int| minute * 60 < k * 60 <= last.0 implies !(#[trigger] minute_allowed(
            calendar,
            zone,
            k,
        )) by {
            assert(!minute_open(calendar, zone, k, None));
        }
    }
}

/// A run is owed now exactly where the floor is behind and there is a minute a run
/// may happen in, however long ago, after the moment the last run served and not
/// after now; where days come in order and the zone skips nothing the calendar
/// names.
pub proof fn a_moment_that_went_by_is_owed(
    calendar: Calendar,
    every: Option<Duration>,
    last_run: Option<Epoch>,
    now: Epoch,
    zone: Zone,
)
    requires
        days_in_order(zone),
        skips_nothing(calendar, zone),
        in_range(now.0 as int),
        last_run matches Some(last) ==> in_range(last.0 as int),
    ensures
        is_owed(calendar, zone, every, last_run, now) <==> grid_floor(
            calendar,
            zone,
            every,
            last_run,
            now,
        ).0 <= now.0 && exists|minute: int| #[trigger]
            minute_open(calendar, zone, minute, last_run) && first_owed(
                calendar,
                zone,
                last_run,
                now,
            ) <= minute <= now.0 as int / 60,
{
    let begin = now.0 as int / 60;
    let first = first_owed(calendar, zone, last_run, now);
    let reach = if begin - first + 1 < HORIZON_MINUTES {
        begin - first + 1
    } else {
        HORIZON_MINUTES as int
    };
    if is_owed(calendar, zone, every, last_run, now) {
        a_run_owed_now_has_a_moment_behind_it(calendar, every, last_run, now, zone);
    }
    the_search_misses_nothing(calendar, zone, begin, begin, Direction::Backward, reach, last_run);
    if exists|minute: int| #[trigger]
        minute_open(calendar, zone, minute, last_run) && first <= minute <= begin {
        let minute = choose|minute: int| #[trigger]
            minute_open(calendar, zone, minute, last_run) && first <= minute <= begin;
        if minute <= begin - HORIZON_MINUTES {
            if last_run is Some {
                the_moment_served_is_the_last_one_allowed(calendar, zone, last_run->0);
                the_moment_served_is_not_after_the_run(calendar, zone, last_run->0);
                assert(minute * 60 > (last_run->0).0);
            }
            let again = lemma_allowed_again(calendar, zone, minute, begin * 60 / 86_400 - 2_923);
            lemma_not_run_before(zone, again * 60, last_run);
            assert(minute_open(calendar, zone, again, last_run));
        }
    }
}

/// On a clock that does not change no time shows twice, so every minute the calendar
/// allows is one a run may happen in.
proof fn lemma_open_is_allowed(
    calendar: Calendar,
    zone: Zone,
    minute: int,
    last_run: Option<Epoch>,
)
    requires
        zone.changes@.len() == 0,
    ensures
        minute_open(calendar, zone, minute, last_run) == minute_allowed(calendar, zone, minute),
{
    if already_run(zone, minute * 60, last_run) {
        let t = choose|t: int| #[trigger]
            zone.shows(t, zone.local(minute * 60)) && t < minute * 60 && t <= (last_run->0).0;
        assert(zone.local(t) == zone.local(minute * 60));
    }
}

/// On a clock that does not change, a calendar's next moment is now when the floor is
/// behind and an allowed minute went by since the moment the last run served.
/// Otherwise it is the first minute the calendar allows that is neither before the
/// floor nor before now, and there is none only when the calendar allows none from
/// there on.
pub proof fn the_next_moment_on_a_clock_that_does_not_change(
    calendar: Calendar,
    every: Option<Duration>,
    last_run: Option<Epoch>,
    now: Epoch,
    zone: Zone,
)
    requires
        zone.changes@.len() == 0,
        is_whole_offset(zone.offset),
        in_range(now.0 as int),
        last_run matches Some(last) ==> in_range(last.0 as int),
    ensures
        ({
            let floor = grid_floor(calendar, zone, every, last_run, now);
            let begin = ceil_minute(latest(floor, now).0 as int);
            let next = next_due(Some(calendar), every, last_run, now, zone);
            if floor.0 <= now.0 && exists|k: int| #[trigger]
                minute_allowed(calendar, zone, k) && first_owed(calendar, zone, last_run, now) <= k
                    <= now.0 as int / 60 {
                next == Some(now)
            } else {
                match next {
                    Some(next) => {
                        &&& next.0 as int % 60 == 0
                        &&& begin <= next.0 as int / 60
                        &&& minute_allowed(calendar, zone, next.0 as int / 60)
                        &&& forall|k: int|
                            begin <= k < next.0 as int / 60 ==> !(#[trigger] minute_allowed(
                                calendar,
                                zone,
                                k,
                            ))
                    },
                    None => forall|k: int|
                        k >= begin ==> !(#[trigger] minute_allowed(calendar, zone, k)),
                }
            }
        }),
{
    a_clock_that_does_not_change_skips_nothing(calendar, zone);
    a_moment_that_went_by_is_owed(calendar, every, last_run, now, zone);
    assert forall|k: int| #[trigger] minute_open(calendar, zone, k, last_run) == minute_allowed(
        calendar,
        zone,
        k,
    ) by {
        lemma_open_is_allowed(calendar, zone, k, last_run);
    }
    let floor = grid_floor(calendar, zone, every, last_run, now);
    let begin = ceil_minute(latest(floor, now).0 as int);
    let first = first_owed(calendar, zone, last_run, now);
    if floor.0 <= now.0 && exists|k: int| #[trigger]
        minute_allowed(calendar, zone, k) && first <= k <= now.0 as int / 60 {
        let k = choose|k: int| #[trigger]
            minute_allowed(calendar, zone, k) && first <= k <= now.0 as int / 60;
        assert(minute_open(calendar, zone, k, last_run));
    } else {
        if is_owed(calendar, zone, every, last_run, now) {
            let k = choose|k: int| #[trigger]
                minute_open(calendar, zone, k, last_run) && first <= k <= now.0 as int / 60;
            assert(minute_allowed(calendar, zone, k));
        }
        the_next_moment_is_the_first_one_open(calendar, every, last_run, now, zone);
        match next_due(Some(calendar), every, last_run, now, zone) {
            Some(next) => {
                what_is_found_is_open(
                    calendar,
                    zone,
                    begin,
                    begin,
                    Direction::Forward,
                    HORIZON_MINUTES as int,
                    last_run,
                );
                let found = search(
                    calendar,
                    zone,
                    begin,
                    Direction::Forward,
                    HORIZON_MINUTES as int,
                    last_run,
                )->0;
                assert(zone.readable(found * 60));
                assert((found * 60) / 60 == found && (found * 60) % 60 == 0);
                assert forall|k: int| begin <= k < found implies !(#[trigger] minute_allowed(
                    calendar,
                    zone,
                    k,
                )) by {
                    assert(!minute_open(calendar, zone, k, last_run));
                }
            },
            None => {
                nothing_is_due_only_when_nothing_ever_is(calendar, every, last_run, now, zone);
                assert forall|k: int| k >= begin implies !(#[trigger] minute_allowed(
                    calendar,
                    zone,
                    k,
                )) by {
                    assert(!minute_open(calendar, zone, k, last_run));
                }
            },
        }
    }
}

/// When a calendar names two days in a row, it is one whose days can follow one
/// another.
pub proof fn days_in_a_row_are_seen(calendar: Calendar, year: int, month: int, day: int)
    requires
        is_date(year, month, day),
        calendar.names_day(day_number(year, month, day)),
        calendar.names_day(day_number(year, month, day) + 1),
    ensures
        calendar.days_can_follow(),
{
    let number = day_number(year, month, day);
    lemma_date_of(year, month, day);
    lemma_day_after(year, month, day);
    if calendar.restricts_days_of_month() && !calendar.restricts_days_of_week() {
        assert(calendar.days_of_month.has(day));
        if day < month_days(year, month) {
            assert(calendar.days_of_month.has(day + 1));
        }
    } else if !calendar.restricts_days_of_month() && calendar.restricts_days_of_week() {
        let d = weekday_of(number);
        assert(calendar.days_of_week.has(d));
        assert((d + 1) % 7 == weekday_of(number + 1));
    }
}

/// No two local minutes a calendar allows are closer together than its tightest
/// gap, on a clock that does not change.
pub proof fn no_two_moments_are_closer_than_the_tightest_gap(
    calendar: Calendar,
    year: int,
    month: int,
    day: int,
    a: int,
    b: int,
    gap: int,
)
    requires
        is_date(year, month, day),
        a / 86_400 == day_number(year, month, day),
        a % 60 == 0,
        b % 60 == 0,
        a < b,
        calendar.names_second(a),
        calendar.names_second(b),
        calendar.times_in_a_day(),
        calendar.is_tightest(gap),
    ensures
        b - a >= gap,
{
    let (x, y) = (a % 86_400, b % 86_400);
    lemma_named_moment(calendar, a);
    lemma_named_moment(calendar, b);
    assert(calendar.times.has_moment(x) && calendar.times.has_moment(y));
    let n = a / 86_400;
    if b / 86_400 == n {
        assert(calendar.has_gap(y - x));
    } else if b / 86_400 == n + 1 {
        days_in_a_row_are_seen(calendar, year, month, day);
        if y < x {
            assert(calendar.has_gap(86_400 - x + y));
        } else {
            lemma_gap_within_a_day(calendar, gap);
        }
    } else {
        lemma_gap_within_a_day(calendar, gap);
    }
}

/// The time of day decides the remainders of a second.
pub proof fn lemma_remainders(day: int, second: int)
    requires
        0 <= second < 86_400,
    ensures
        (day * 86_400 + second) / 86_400 == day,
        (day * 86_400 + second) % 86_400 == second,
        (day * 86_400 + second) % 3_600 == second % 3_600,
        (day * 86_400 + second) % 60 == second % 60,
{
    let all = day * 86_400 + second;
    assert(all == 3_600 * (24 * day) + second);
    assert(all == 60 * (1_440 * day) + second);
    lemma_mod_multiples_vanish(24 * day, second, 3_600);
    lemma_mod_multiples_vanish(1_440 * day, second, 60);
}

proof fn lemma_time_of_day(local: int)
    requires
        local % 60 == 0,
    ensures
        local % 86_400 == local % 86_400 / 3_600 * 3_600 + local % 3_600 / 60 * 60,
        0 <= local % 86_400 / 3_600 < 24,
        0 <= local % 3_600 / 60 < 60,
{
    let second = local % 86_400;
    assert(local == local / 86_400 * 86_400 + second);
    lemma_remainders(local / 86_400, second);
    let hour = second / 3_600;
    assert(second == hour * 3_600 + second % 3_600);
    assert(second % 3_600 % 60 == 0);
}

pub proof fn lemma_has_moment(times: Times, hour: int, minute: int)
    requires
        times.has(hour, minute),
        0 <= hour < 24,
        0 <= minute < 60,
    ensures
        times.has_moment(hour * 3_600 + minute * 60),
{
    let second = hour * 3_600 + minute * 60;
    match times {
        Times::Exact(list) => {
            let i = choose|i: int|
                0 <= i < list@.len() && (#[trigger] list@[i]).0 == hour && list@[i].1 == minute;
            assert(second == list@[i].0 * 3_600 + list@[i].1 * 60);
        },
        Times::Crossed { minutes, hours } => {
            assert(hours.has(hour) && minutes.has(minute));
        },
    }
}

proof fn lemma_named_moment(calendar: Calendar, local: int)
    requires
        calendar.names_second(local),
        local % 60 == 0,
    ensures
        calendar.times.has_moment(local % 86_400),
{
    lemma_time_of_day(local);
    lemma_has_moment(calendar.times, local % 86_400 / 3_600, local % 3_600 / 60);
}

proof fn lemma_gap_within_a_day(calendar: Calendar, gap: int)
    requires
        calendar.times_in_a_day(),
        calendar.is_tightest(gap),
    ensures
        gap < 86_400,
{
    let (p, q) = choose|p: int, q: int|
        #![trigger calendar.times.has_moment(p), calendar.times.has_moment(q)]
        calendar.times.has_moment(p) && calendar.times.has_moment(q) && p < q && (gap == q - p || (
        calendar.days_can_follow() && gap == 86_400 - q + p));
    assert(calendar.times.has_moment(p) && calendar.times.has_moment(q));
}

/// One evaluator, two syntaxes: a time of day named on its own and the same
/// hour and minute as two cron fields allow the same seconds.
pub proof fn the_two_syntaxes_agree(
    named: Calendar,
    cron: Calendar,
    hour: u32,
    minute: u32,
)
    requires
        named.times matches Times::Exact(times) && times@ == seq![(hour, minute)],
        cron.times matches Times::Crossed { minutes, hours } && (forall|v: int| #[trigger]
            minutes.has(v) <==> v == minute) && (forall|v: int| #[trigger]
            hours.has(v) <==> v == hour),
        named.days_of_month == cron.days_of_month,
        named.months == cron.months,
        named.days_of_week == cron.days_of_week,
    ensures
        forall|local: int| #[trigger] named.names_second(local) == cron.names_second(local),
{
    let times = named.times->Exact_0;
    assert(times@[0] == (hour, minute));
    assert forall|local: int| #[trigger] named.names_second(local) == cron.names_second(local) by {
        let (h, m) = (local % 86_400 / 3_600, local % 3_600 / 60);
        if h == hour && m == minute {
            assert(times@[0].0 == h && times@[0].1 == m);
        }
    }
}

} // verus!
