//! Local time: what the wall clock reads at an instant.
//!
//! A zone is held as plain numbers: the offset it starts with and the instants
//! at which that changes. The calendar date a local second falls on comes from
//! `chrono`.
use chrono::{Datelike, Timelike};
use vstd::prelude::*;

verus! {

/// The first second `chrono` can name: the start of the year -262143.
pub const FIRST_SECOND: i64 = -8_334_601_228_800;

/// The last second `chrono` can name: the end of the year 262142.
pub const LAST_SECOND: i64 = 8_210_266_876_799;

pub open spec fn is_leap(year: int) -> bool {
    year % 4 == 0 && (year % 100 != 0 || year % 400 == 0)
}

/// How many days a month of a year has.
pub open spec fn month_days(year: int, month: int) -> int {
    if month == 2 {
        if is_leap(year) {
            29
        } else {
            28
        }
    } else if month == 4 || month == 6 || month == 9 || month == 11 {
        30
    } else {
        31
    }
}

/// How many days of a year are over when a month begins.
pub open spec fn days_before_month(year: int, month: int) -> int
    decreases month,
{
    if month <= 1 {
        0
    } else {
        days_before_month(year, month - 1) + month_days(year, month - 1)
    }
}

/// How many leap years there are from the year 1 to a year, that year included.
pub open spec fn leap_years(year: int) -> int {
    year / 4 - year / 100 + year / 400
}

/// How many days separate the start of 1970 from the start of a year.
pub open spec fn days_before_year(year: int) -> int {
    365 * (year - 1970) + leap_years(year - 1) - leap_years(1969)
}

/// Whether this is a date of the Gregorian calendar.
pub open spec fn is_date(year: int, month: int, day: int) -> bool {
    1 <= month <= 12 && 1 <= day <= month_days(year, month)
}

/// How many days a date is away from 1970-01-01.
pub open spec fn day_number(year: int, month: int, day: int) -> int {
    days_before_year(year) + days_before_month(year, month) + day - 1
}

/// The date so many days away from 1970-01-01, as year, month and day.
pub open spec fn date_of(number: int) -> (int, int, int) {
    choose|year: int, month: int, day: int|
        is_date(year, month, day) && #[trigger] day_number(year, month, day) == number
}

/// The day of the week so many days away from 1970-01-01, which was a
/// Thursday. Sunday is 0.
pub open spec fn weekday_of(number: int) -> int {
    (number + 4) % 7
}

proof fn lemma_year_length(year: int)
    ensures
        days_before_year(year + 1) == days_before_year(year) + if is_leap(year) {
            366int
        } else {
            365
        },
{
    assert(year / 4 - (year - 1) / 4 == if year % 4 == 0 {
        1int
    } else {
        0
    });
    assert(year / 100 - (year - 1) / 100 == if year % 100 == 0 {
        1int
    } else {
        0
    });
    assert(year / 400 - (year - 1) / 400 == if year % 400 == 0 {
        1int
    } else {
        0
    });
    assert(year % 400 == 0 ==> year % 100 == 0) by (nonlinear_arith);
    assert(year % 100 == 0 ==> year % 4 == 0) by (nonlinear_arith);
}

proof fn lemma_years_apart(a: int, b: int)
    requires
        a <= b,
    ensures
        days_before_year(a) + 365 * (b - a) <= days_before_year(b),
        days_before_year(b) <= days_before_year(a) + 366 * (b - a),
    decreases b - a,
{
    if a < b {
        lemma_years_apart(a, b - 1);
        lemma_year_length(b - 1);
    }
}

proof fn lemma_months_apart(year: int, a: int, b: int)
    requires
        1 <= a < b,
    ensures
        days_before_month(year, a) + month_days(year, a) <= days_before_month(year, b),
    decreases b - a,
{
    if a < b - 1 {
        lemma_months_apart(year, a, b - 1);
    }
}

proof fn lemma_day_of_year(year: int, month: int, day: int)
    requires
        is_date(year, month, day),
    ensures
        days_before_year(year) <= day_number(year, month, day) < days_before_year(year + 1),
{
    reveal_with_fuel(days_before_month, 14);
    lemma_year_length(year);
    if month < 12 {
        lemma_months_apart(year, month, 13);
    }
    assert(days_before_month(year, 13) == if is_leap(year) {
        366int
    } else {
        365
    });
    if month > 1 {
        lemma_months_apart(year, 1, month);
    }
}

/// No two dates have the same number, so a number has one date.
pub proof fn lemma_date_of(year: int, month: int, day: int)
    requires
        is_date(year, month, day),
    ensures
        date_of(day_number(year, month, day)) == (year, month, day),
{
    let number = day_number(year, month, day);
    let (y, m, d) = date_of(number);
    assert(is_date(y, m, d) && day_number(y, m, d) == number);
    lemma_day_of_year(year, month, day);
    lemma_day_of_year(y, m, d);
    if y < year {
        lemma_years_apart(y + 1, year);
    } else if year < y {
        lemma_years_apart(year + 1, y);
    }
    if m < month {
        lemma_months_apart(year, m, month);
    } else if month < m {
        lemma_months_apart(year, month, m);
    }
}

proof fn lemma_last_day(year: int)
    ensures
        day_number(year, 12, 31) + 1 == day_number(year + 1, 1, 1),
{
    reveal_with_fuel(days_before_month, 13);
    lemma_year_length(year);
}

/// The day after a date is the next of its month, or the first of another.
pub proof fn lemma_day_after(year: int, month: int, day: int)
    requires
        is_date(year, month, day),
    ensures
        day < month_days(year, month) ==> date_of(day_number(year, month, day) + 1) == (
            year,
            month,
            day + 1,
        ),
        day == month_days(year, month) ==> date_of(day_number(year, month, day) + 1).2 == 1,
{
    if day < month_days(year, month) {
        lemma_date_of(year, month, day + 1);
    } else if month < 12 {
        lemma_date_of(year, month + 1, 1);
    } else {
        lemma_last_day(year);
        lemma_date_of(year + 1, 1, 1);
    }
}

/// Every number of days away from 1970-01-01 has a date.
pub proof fn lemma_some_date(number: int) -> (date: (int, int, int))
    ensures
        is_date(date.0, date.1, date.2),
        day_number(date.0, date.1, date.2) == number,
    decreases if number < 0 { -number } else { number },
{
    if number == 0 {
        (1970, 1, 1)
    } else if number > 0 {
        let (year, month, day) = lemma_some_date(number - 1);
        if day < month_days(year, month) {
            (year, month, day + 1)
        } else if month < 12 {
            (year, month + 1, 1)
        } else {
            lemma_last_day(year);
            (year + 1, 1, 1)
        }
    } else {
        let (year, month, day) = lemma_some_date(number + 1);
        if day > 1 {
            (year, month, day - 1)
        } else if month > 1 {
            (year, month - 1, month_days(year, month - 1))
        } else {
            lemma_last_day(year - 1);
            (year - 1, 12, 31)
        }
    }
}

proof fn lemma_leap_day_number(year: int)
    ensures
        day_number(year, 2, 29) == days_before_year(year) + 59,
{
    reveal_with_fuel(days_before_month, 3);
}

/// A century that turns without a leap day has one four years before and one four
/// years after.
proof fn lemma_leap_years_around(year: int)
    requires
        year % 4 == 0,
        !is_leap(year),
    ensures
        is_leap(year - 4),
        is_leap(year + 4),
{
    let q = year / 100;
    assert(year == 100 * q);
    assert((100 * q - 4) % 100 == 96);
    assert((100 * q + 4) % 100 == 4);
}

/// Four years that begin on the four-year grid have one leap day, or none.
proof fn lemma_four_years(year: int)
    requires
        year % 4 == 0,
    ensures
        days_before_year(year + 4) == days_before_year(year) + if is_leap(year) {
            1_461int
        } else {
            1_460
        },
{
    assert((year + 3) / 4 - (year - 1) / 4 == 1);
    assert((year + 3) / 100 - (year - 1) / 100 == if year % 100 == 0 {
        1int
    } else {
        0
    });
    assert((year + 3) / 400 - (year - 1) / 400 == if year % 400 == 0 {
        1int
    } else {
        0
    });
    assert(year % 400 == 0 ==> year % 100 == 0);
}

/// After any year there is a leap year: seven years on at most, or eight after a leap
/// year.
proof fn lemma_leap_year_comes(y: int) -> (year: int)
    ensures
        is_leap(year),
        days_before_year(y) + 365 <= days_before_year(year),
        days_before_year(year) <= days_before_year(y) + if is_leap(y) {
            2_921int
        } else {
            2_562
        },
{
    // The last year on the four-year grid that is not after this one.
    let g = y - y % 4;
    if is_leap(g + 4) {
        lemma_years_apart(y, g + 4);
        g + 4
    } else {
        lemma_leap_years_around(g + 4);
        if g == y {
            lemma_four_years(y);
            lemma_four_years(y + 4);
        } else {
            lemma_years_apart(y, g + 8);
        }
        g + 8
    }
}

/// From any day on there is a leap day within eight years. They lie as far apart
/// as that around the turn of a century that has none.
pub proof fn lemma_leap_day_comes(from: int) -> (year: int)
    ensures
        is_leap(year),
        from <= day_number(year, 2, 29) <= from + 2_920,
{
    let (y, m, d) = lemma_some_date(from);
    lemma_day_of_year(y, m, d);
    lemma_leap_day_number(y);
    if is_leap(y) && from <= day_number(y, 2, 29) {
        y
    } else {
        let year = lemma_leap_year_comes(y);
        lemma_leap_day_number(year);
        lemma_year_length(y);
        year
    }
}

/// From any day on, a date that every year has comes within two years.
pub proof fn lemma_date_comes(from: int, month: int, day: int) -> (year: int)
    requires
        is_date(1970, month, day),
    ensures
        is_date(year, month, day),
        from <= day_number(year, month, day) <= from + 731,
{
    let (y, m, d) = lemma_some_date(from);
    lemma_day_of_year(y, m, d);
    lemma_day_of_year(y + 1, month, day);
    lemma_years_apart(y, y + 2);
    y + 1
}

/// What the wall clock reads.
#[derive(Debug, Clone, Copy, PartialEq, Eq, Structural)]
pub struct LocalTime {
    pub year: i32,
    pub month: u32,
    pub day: u32,
    /// Sunday is 0.
    pub weekday: u32,
    pub hour: u32,
    pub minute: u32,
}

impl LocalTime {
    /// Whether this is what the clock reads at a local second, counted from
    /// the local start of 1970.
    pub open spec fn reads(self, local: int) -> bool {
        &&& is_date(self.year as int, self.month as int, self.day as int)
        &&& day_number(self.year as int, self.month as int, self.day as int) == local / 86_400
        &&& self.weekday == weekday_of(local / 86_400)
        &&& self.hour == local % 86_400 / 3_600
        &&& self.minute == local % 3_600 / 60
    }
}

/// Whether `chrono` can name a second.
pub open spec fn in_range(second: int) -> bool {
    FIRST_SECOND <= second <= LAST_SECOND
}

/// `chrono::DateTime::from_timestamp`, read through a `chrono::FixedOffset`.
///
/// It answers for the seconds between the start of the year -262143 and the end
/// of the year 262142, and for no others. What it answers is the date of the
/// proleptic Gregorian calendar, the day of the week and the time of day that
/// the second plus the offset falls on.
#[verifier::external_body]
fn local_time(second: i64, offset: i32) -> (r: Option<LocalTime>)
    requires
        -86_400 < offset < 86_400,
    ensures
        r is Some <==> in_range(second as int),
        r is Some ==> r->0.reads(second + offset),
{
    let utc = chrono::DateTime::from_timestamp(second, 0)?;
    let local = utc.with_timezone(&chrono::FixedOffset::east_opt(offset)?);
    Some(
        LocalTime {
            year: local.year(),
            month: local.month(),
            day: local.day(),
            weekday: local.weekday().num_days_from_sunday(),
            hour: local.hour(),
            minute: local.minute(),
        },
    )
}

/// An instant from which another offset is in force.
#[derive(Debug, Clone, Copy, PartialEq, Eq, Structural)]
pub struct Change {
    pub at: i64,
    pub offset: i32,
}

/// A time zone: how far ahead of UTC the wall clock is, in seconds, and when
/// that changes.
#[derive(Debug, Clone, PartialEq, Eq)]
pub struct Zone {
    /// In force before the first change.
    pub offset: i32,
    /// In the order they happen.
    pub changes: Vec<Change>,
}

/// The offset in force at an instant: that of the last change at or before it.
pub open spec fn offset_among(first: i32, changes: Seq<Change>, at: int) -> i32
    decreases changes.len(),
{
    if changes.len() == 0 {
        first
    } else if changes.last().at <= at {
        changes.last().offset
    } else {
        offset_among(first, changes.drop_last(), at)
    }
}

impl Zone {
    /// A zone that never changes.
    pub fn fixed(offset: i32) -> (zone: Zone)
        ensures
            zone.offset == offset,
            zone.changes@.len() == 0,
    {
        Zone { offset, changes: Vec::new() }
    }

    /// Coordinated universal time.
    pub fn utc() -> (zone: Zone)
        ensures
            zone.offset == 0,
            zone.changes@.len() == 0,
    {
        Zone::fixed(0)
    }

    pub open spec fn offset_at(self, at: int) -> i32 {
        offset_among(self.offset, self.changes@, at)
    }

    /// The local second an instant falls on.
    pub open spec fn local(self, at: int) -> int {
        at + self.offset_at(at)
    }

    /// Whether the wall clock can be read at an instant.
    pub open spec fn readable(self, at: int) -> bool {
        in_range(at) && -86_400 < self.offset_at(at) < 86_400
    }

    /// Whether the wall clock shows a local second at an instant.
    pub open spec fn shows(self, at: int, local: int) -> bool {
        self.readable(at) && in_range(local) && self.local(at) == local
    }

    pub open spec fn is_first_showing(self, at: int, local: int) -> bool {
        self.shows(at, local) && forall|t: int| #[trigger] self.shows(t, local) ==> at <= t
    }

    pub open spec fn is_last_showing(self, at: int, local: int) -> bool {
        self.shows(at, local) && forall|t: int| #[trigger] self.shows(t, local) ==> t <= at
    }

    /// The first instant at which the wall clock shows a local second.
    pub open spec fn first_showing(self, local: int) -> Option<int> {
        if exists|t: int| #[trigger] self.is_first_showing(t, local) {
            Some(choose|t: int| #[trigger] self.is_first_showing(t, local))
        } else {
            None
        }
    }

    /// The last instant at which the wall clock shows a local second.
    pub open spec fn last_showing(self, local: int) -> Option<int> {
        if exists|t: int| #[trigger] self.is_last_showing(t, local) {
            Some(choose|t: int| #[trigger] self.is_last_showing(t, local))
        } else {
            None
        }
    }

    fn offset_in_force(&self, at: i64) -> (r: i32)
        ensures
            r == self.offset_at(at as int),
    {
        let mut n: usize = self.changes.len();
        assert(self.changes@.take(n as int) == self.changes@);
        while n > 0
            invariant
                n <= self.changes@.len(),
                offset_among(self.offset, self.changes@, at as int) == offset_among(
                    self.offset,
                    self.changes@.take(n as int),
                    at as int,
                ),
            decreases n,
        {
            let change = self.changes[n - 1];
            assert(self.changes@.take(n as int).last() == change);
            assert(self.changes@.take(n as int).drop_last() == self.changes@.take(n - 1));
            if change.at <= at {
                return change.offset;
            }
            n = n - 1;
        }
        self.offset
    }

    /// What the wall clock reads at an instant.
    pub fn read(&self, at: i64) -> (r: Option<LocalTime>)
        ensures
            r is Some <==> self.readable(at as int),
            r is Some ==> r->0.reads(self.local(at as int)),
    {
        let offset = self.offset_in_force(at);
        if offset <= -86_400 || offset >= 86_400 {
            return None;
        }
        local_time(at, offset)
    }

    /// The local second an instant falls on.
    pub fn local_second(&self, at: i64) -> (r: i64)
        requires
            self.readable(at as int),
        ensures
            r == self.local(at as int),
    {
        at + self.offset_in_force(at) as i64
    }

    /// The offset of a place in the list of those a zone has: the one it starts
    /// with, and then that of each change.
    spec fn nth_offset(self, i: int) -> i32 {
        if i == 0 {
            self.offset
        } else {
            self.changes@[i - 1].offset
        }
    }

    proof fn lemma_offset_is_listed(self, at: int) -> (i: int)
        ensures
            0 <= i <= self.changes@.len(),
            self.offset_at(at) == self.nth_offset(i),
    {
        let i = lemma_listed(self.offset, self.changes@, at);
        i
    }

    /// The first and the last instant at which the wall clock shows a local
    /// second. They differ in an hour that a zone repeats, and there is none in
    /// an hour that it skips.
    pub fn showings(&self, local: i64) -> (r: Option<(i64, i64)>)
        ensures
            match r {
                Some((first, last)) => {
                    &&& self.is_first_showing(first as int, local as int)
                    &&& self.is_last_showing(last as int, local as int)
                },
                None => forall|t: int| !(#[trigger] self.shows(t, local as int)),
            },
    {
        if local < FIRST_SECOND || local > LAST_SECOND {
            return None;
        }
        let mut found: Option<(i64, i64)> = self.also_at(local, self.offset, None);
        let mut i: usize = 0;
        while i < self.changes.len()
            invariant
                in_range(local as int),
                i <= self.changes@.len(),
                self.all_show(found, local as int),
                forall|k: int| 0 <= k <= i ==> self.covers(found, local as int, #[trigger] self.nth_offset(k)),
            decreases self.changes@.len() - i,
        {
            let offset = self.changes[i].offset;
            assert(offset == self.nth_offset(i + 1));
            let ghost before = found;
            found = self.also_at(local, offset, found);
            i = i + 1;
            assert forall|k: int| 0 <= k <= i implies self.covers(
                found,
                local as int,
                #[trigger] self.nth_offset(k),
            ) by {
                assert(k < i ==> self.covers(before, local as int, self.nth_offset(k)));
            }
        }
        proof {
            assert forall|t: int| #[trigger] self.shows(t, local as int) implies found is Some && (
            found->0).0 <= t <= (found->0).1 by {
                let k = self.lemma_offset_is_listed(t);
                assert(self.covers(found, local as int, self.nth_offset(k)));
                assert(t == local - self.nth_offset(k));
            }
        }
        found
    }

    /// Whether the two instants found so far show a local second.
    spec fn all_show(self, found: Option<(i64, i64)>, local: int) -> bool {
        found matches Some((first, last)) ==> self.shows(first as int, local) && self.shows(
            last as int,
            local,
        )
    }

    /// Whether the instant at which an offset would show a local second is
    /// between the two found so far, if it shows it.
    spec fn covers(self, found: Option<(i64, i64)>, local: int, offset: i32) -> bool {
        self.shows(local - offset, local) ==> found is Some && (found->0).0 <= local - offset <= (
        found->0).1
    }

    /// The first and the last instant found so far, with the one at which an
    /// offset shows a local second.
    fn also_at(&self, local: i64, offset: i32, found: Option<(i64, i64)>) -> (r: Option<(i64, i64)>)
        requires
            in_range(local as int),
            self.all_show(found, local as int),
        ensures
            self.all_show(r, local as int),
            self.covers(r, local as int, offset),
            forall|other: i32|
                self.covers(found, local as int, other) ==> #[trigger] self.covers(
                    r,
                    local as int,
                    other,
                ),
    {
        let t: i64 = local - offset as i64;
        let in_force = self.offset_in_force(t);
        if t < FIRST_SECOND || t > LAST_SECOND || in_force != offset || offset <= -86_400 || offset
            >= 86_400 {
            return found;
        }
        match found {
            None => Some((t, t)),
            Some((first, last)) => {
                let first = if t < first {
                    t
                } else {
                    first
                };
                let last = if t > last {
                    t
                } else {
                    last
                };
                Some((first, last))
            },
        }
    }

    /// A first showing is the one the function of that name gives.
    pub proof fn lemma_first_showing(self, at: int, local: int)
        requires
            self.is_first_showing(at, local),
        ensures
            self.first_showing(local) == Some(at),
    {
        let t = choose|t: int| #[trigger] self.is_first_showing(t, local);
        assert(self.is_first_showing(t, local));
    }

    /// A last showing is the one the function of that name gives.
    pub proof fn lemma_last_showing(self, at: int, local: int)
        requires
            self.is_last_showing(at, local),
        ensures
            self.last_showing(local) == Some(at),
    {
        let t = choose|t: int| #[trigger] self.is_last_showing(t, local);
        assert(self.is_last_showing(t, local));
    }
}

proof fn lemma_listed(first: i32, changes: Seq<Change>, at: int) -> (i: int)
    ensures
        0 <= i <= changes.len(),
        offset_among(first, changes, at) == if i == 0 {
            first
        } else {
            changes[i - 1].offset
        },
    decreases changes.len(),
{
    if changes.len() == 0 {
        0
    } else if changes.last().at <= at {
        changes.len() as int
    } else {
        lemma_listed(first, changes.drop_last(), at)
    }
}

} // verus!
