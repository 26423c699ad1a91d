//! The set of minutes a run is allowed to happen in.
use vstd::prelude::*;

use super::parse::FieldSet;
use super::zone::{
    date_of, day_number, days_before_month, days_before_year, is_date, is_leap, lemma_date_of,
    month_days, weekday_of, LocalTime,
};

verus! {

/// Which minutes a run is allowed to happen in.
#[derive(Debug, PartialEq, Eq)]
pub struct Calendar {
    pub times: Times,
    pub days_of_month: FieldSet,
    pub months: FieldSet,
    /// Sunday is 0, the way cron numbers them.
    pub days_of_week: FieldSet,
}

/// Which times of day a calendar allows, in whichever of the two readings the
/// syntax it came from means.
#[derive(Debug, PartialEq, Eq)]
pub enum Times {
    /// The `(hour, minute)` pairs somebody named.
    Exact(Vec<(u32, u32)>),
    /// The two fields, to be crossed. What a cron expression means.
    Crossed { minutes: FieldSet, hours: FieldSet },
}

impl Clone for Times {
    fn clone(&self) -> (r: Times)
        ensures
            r.alike(*self),
    {
        match self {
            Times::Exact(times) => {
                let mut copy: Vec<(u32, u32)> = Vec::new();
                let mut i: usize = 0;
                while i < times.len()
                    invariant
                        i <= times@.len(),
                        copy@ == times@.take(i as int),
                    decreases times@.len() - i,
                {
                    copy.push(times[i]);
                    i = i + 1;
                    assert(copy@ == times@.take(i as int));
                }
                assert(times@.take(times@.len() as int) == times@);
                Times::Exact(copy)
            },
            Times::Crossed { minutes, hours } => Times::Crossed {
                minutes: *minutes,
                hours: *hours,
            },
        }
    }
}

impl Clone for Calendar {
    fn clone(&self) -> (r: Calendar)
        ensures
            r.alike(*self),
    {
        Calendar {
            times: self.times.clone(),
            days_of_month: self.days_of_month,
            months: self.months,
            days_of_week: self.days_of_week,
        }
    }
}

impl Times {
    /// Whether two of these hold the same times in the same reading.
    pub open spec fn alike(self, other: Times) -> bool {
        match (self, other) {
            (Times::Exact(a), Times::Exact(b)) => a@ == b@,
            (Times::Crossed { .. }, Times::Crossed { .. }) => self == other,
            _ => false,
        }
    }

    /// Whether a time of day is allowed.
    pub open spec fn has(self, hour: int, minute: int) -> bool {
        match self {
            Times::Exact(times) => exists|i: int|
                0 <= i < times@.len() && (#[trigger] times@[i]).0 == hour && times@[i].1 == minute,
            Times::Crossed { minutes, hours } => hours.has(hour) && minutes.has(minute),
        }
    }

    /// Whether a second of the day is an allowed moment.
    pub open spec fn has_moment(self, second: int) -> bool {
        match self {
            Times::Exact(times) => exists|i: int|
                0 <= i < times@.len() && second == (#[trigger] times@[i]).0 * 3_600 + times@[i].1
                    * 60,
            Times::Crossed { minutes, hours } => exists|hour: int, minute: int|
                #![trigger hours.has(hour), minutes.has(minute)]
                0 <= hour < 24 && 0 <= minute < 60 && hours.has(hour) && minutes.has(minute)
                    && second == hour * 3_600 + minute * 60,
        }
    }

    proof fn lemma_moment_bound(self, second: int)
        requires
            self.has_moment(second),
        ensures
            0 <= second <= u32::MAX * 3_660,
    {
    }

    #[verifier::loop_isolation(false)]
    pub fn allows(&self, hour: u32, minute: u32) -> (r: bool)
        ensures
            r == self.has(hour as int, minute as int),
    {
        match self {
            Times::Exact(times) => {
                let mut i: usize = 0;
                while i < times.len()
                    invariant
                        i <= times@.len(),
                        forall|j: int|
                            0 <= j < i ==> !((#[trigger] times@[j]).0 == hour && times@[j].1
                                == minute),
                    decreases times@.len() - i,
                {
                    let (h, m): (u32, u32) = times[i];
                    if h == hour && m == minute {
                        assert(times@[i as int].0 == hour && times@[i as int].1 == minute);
                        return true;
                    }
                    i = i + 1;
                }
                false
            },
            Times::Crossed { minutes, hours } => hours.contains(hour) && minutes.contains(minute),
        }
    }

    /// Every allowed moment of the day, as seconds since midnight, in order.
    pub fn moments(&self) -> (v: Vec<i64>)
        ensures
            increasing(v@),
            forall|second: int| #[trigger] holds(v@, second) <==> self.has_moment(second),
    {
        let mut v: Vec<i64> = Vec::new();
        match self {
            Times::Exact(times) => {
                let mut i: usize = 0;
                while i < times.len()
                    invariant
                        i <= times@.len(),
                        increasing(v@),
                        forall|second: int| #[trigger]
                            holds(v@, second) <==> exists|j: int|
                                0 <= j < i && second == (#[trigger] times@[j]).0 * 3_600
                                    + times@[j].1 * 60,
                    decreases times@.len() - i,
                {
                    let (h, m): (u32, u32) = times[i];
                    let moment: i64 = h as i64 * 3_600 + m as i64 * 60;
                    let ghost before = v@;
                    insert(&mut v, moment);
                    assert forall|second: int| #[trigger] holds(v@, second) <==> exists|j: int|
                        0 <= j < i + 1 && second == (#[trigger] times@[j]).0 * 3_600 + times@[j].1
                            * 60 by {
                        assert(holds(v@, second) <==> holds(before, second) || second == moment);
                        if holds(before, second) {
                            let j = choose|j: int|
                                0 <= j < i && second == (#[trigger] times@[j]).0 * 3_600
                                    + times@[j].1 * 60;
                            assert(times@[j].0 * 3_600 + times@[j].1 * 60 == second);
                        }
                        if second == moment {
                            assert(times@[i as int].0 * 3_600 + times@[i as int].1 * 60 == second);
                        }
                    }
                    i = i + 1;
                }
            },
            Times::Crossed { minutes, hours } => {
                let mut hour: u32 = 0;
                while hour < 24
                    invariant
                        hour <= 24,
                        increasing(v@),
                        forall|second: int| #[trigger]
                            holds(v@, second) <==> crossed_before(*minutes, *hours, hour as int, 0, second),
                    decreases 24 - hour,
                {
                    let mut minute: u32 = 0;
                    while minute < 60
                        invariant
                            hour < 24,
                            minute <= 60,
                            increasing(v@),
                            forall|second: int| #[trigger]
                                holds(v@, second) <==> crossed_before(
                                    *minutes,
                                    *hours,
                                    hour as int,
                                    minute as int,
                                    second,
                                ),
                        decreases 60 - minute,
                    {
                        let ghost before = v@;
                        let moment: i64 = hour as i64 * 3_600 + minute as i64 * 60;
                        if hours.contains(hour) && minutes.contains(minute) {
                            insert(&mut v, moment);
                        }
                        proof {
                            lemma_crossed_step(*minutes, *hours, hour as int, minute as int);
                        }
                        minute = minute + 1;
                    }
                    proof {
                        lemma_crossed_hour(*minutes, *hours, hour as int);
                    }
                    hour = hour + 1;
                }
                proof {
                    assert forall|second: int| #[trigger] holds(v@, second)
                        <==> self.has_moment(second) by {
                        lemma_crossed_all(*minutes, *hours, second);
                    }
                }
            },
        }
        v
    }
}

/// Whether a second is one of the crossed moments before a time of day.
spec fn crossed_before(
    minutes: FieldSet,
    hours: FieldSet,
    to_hour: int,
    to_minute: int,
    second: int,
) -> bool {
    exists|hour: int, minute: int|
        #![trigger hours.has(hour), minutes.has(minute)]
        0 <= hour < 24 && 0 <= minute < 60 && hours.has(hour) && minutes.has(minute) && second
            == hour * 3_600 + minute * 60 && (hour < to_hour || (hour == to_hour && minute
            < to_minute))
}

proof fn lemma_crossed_step(minutes: FieldSet, hours: FieldSet, h: int, m: int)
    requires
        0 <= h < 24,
        0 <= m < 60,
    ensures
        forall|second: int| #[trigger]
            crossed_before(minutes, hours, h, m + 1, second) <==> crossed_before(
                minutes,
                hours,
                h,
                m,
                second,
            ) || (hours.has(h) && minutes.has(m) && second == h * 3_600 + m * 60),
{
}

proof fn lemma_crossed_hour(minutes: FieldSet, hours: FieldSet, h: int)
    requires
        0 <= h < 24,
    ensures
        forall|second: int| #[trigger]
            crossed_before(minutes, hours, h + 1, 0, second) <==> crossed_before(
                minutes,
                hours,
                h,
                60,
                second,
            ),
{
}

proof fn lemma_crossed_all(minutes: FieldSet, hours: FieldSet, second: int)
    ensures
        crossed_before(minutes, hours, 24, 0, second) <==> (Times::Crossed {
            minutes,
            hours,
        }).has_moment(second),
{
    let times = Times::Crossed { minutes, hours };
    if times.has_moment(second) {
        let (hour, minute) = choose|hour: int, minute: int|
            #![trigger hours.has(hour), minutes.has(minute)]
            0 <= hour < 24 && 0 <= minute < 60 && hours.has(hour) && minutes.has(minute) && second
                == hour * 3_600 + minute * 60;
        assert(hours.has(hour) && minutes.has(minute));
    }
    if crossed_before(minutes, hours, 24, 0, second) {
        let (hour, minute) = choose|hour: int, minute: int|
            #![trigger hours.has(hour), minutes.has(minute)]
            0 <= hour < 24 && 0 <= minute < 60 && hours.has(hour) && minutes.has(minute) && second
                == hour * 3_600 + minute * 60 && (hour < 24 || (hour == 24 && minute < 0));
        assert(hours.has(hour) && minutes.has(minute));
        assert(times->hours.has(hour) && times->minutes.has(minute));
        assert(times.has_moment(second));
    }
}

/// Whether each number is below the next.
pub open spec fn increasing(v: Seq<i64>) -> bool {
    forall|i: int, j: int| 0 <= i < j < v.len() ==> v[i] < v[j]
}

/// Whether a number is in a list.
pub open spec fn holds(v: Seq<i64>, n: int) -> bool {
    exists|i: int| 0 <= i < v.len() && #[trigger] v[i] == n
}

/// Puts a number in its place in an increasing list, unless it is there.
fn insert(v: &mut Vec<i64>, n: i64)
    requires
        increasing(old(v)@),
    ensures
        increasing(final(v)@),
        forall|x: int| #[trigger] holds(final(v)@, x) <==> holds(old(v)@, x) || x == n,
{
    let mut i: usize = v.len();
    while i > 0 && v[i - 1] > n
        invariant
            i <= v@.len(),
            v@ == old(v)@,
            forall|j: int| i <= j < v@.len() ==> v@[j] > n,
        decreases i,
    {
        i = i - 1;
    }
    if i > 0 && v[i - 1] == n {
        assert(holds(v@, n as int));
        return;
    }
    let ghost before = v@;
    v.insert(i, n);
    proof {
        assert(v@ == before.insert(i as int, n));
        assert forall|x: int| #[trigger] holds(v@, x) <==> holds(before, x) || x == n by {
            if holds(before, x) {
                let j = choose|j: int| 0 <= j < before.len() && #[trigger] before[j] == x;
                if j < i {
                    assert(v@[j] == x);
                } else {
                    assert(v@[j + 1] == x);
                }
            }
            if x == n {
                assert(v@[i as int] == x);
            }
            if holds(v@, x) {
                let j = choose|j: int| 0 <= j < v@.len() && #[trigger] v@[j] == x;
                if j < i {
                    assert(before[j] == x);
                } else if j > i {
                    assert(before[j - 1] == x);
                }
            }
        }
        assert forall|a: int, b: int| 0 <= a < b < v@.len() implies v@[a] < v@[b] by {
            if b < i {
                assert(before[a] < before[b]);
            } else if a > i {
                assert(before[a - 1] < before[b - 1]);
            } else if a < i && b > i {
                assert(before[a] < before[b - 1] || a == b - 1);
            } else if a < i && b == i {
                assert(before[a] <= before[i - 1]);
            }
        }
    }
}

impl Calendar {
    /// Whether two calendars hold the same fields.
    pub open spec fn alike(self, other: Calendar) -> bool {
        &&& self.times.alike(other.times)
        &&& self.days_of_month == other.days_of_month
        &&& self.months == other.months
        &&& self.days_of_week == other.days_of_week
    }

    pub open spec fn restricts_days_of_month(self) -> bool {
        !self.days_of_month.is_whole(1, 31)
    }

    pub open spec fn restricts_days_of_week(self) -> bool {
        !self.days_of_week.is_whole(0, 6)
    }

    /// Whether a date is one the calendar names.
    ///
    /// The rule is cron's: when both day fields are restricted a date matching
    /// either is named, and when one of them is `*` only the other decides.
    pub open spec fn names_date(self, month: int, day: int, weekday: int) -> bool {
        &&& self.months.has(month)
        &&& if self.restricts_days_of_month() {
            if self.restricts_days_of_week() {
                self.days_of_month.has(day) || self.days_of_week.has(weekday)
            } else {
                self.days_of_month.has(day)
            }
        } else if self.restricts_days_of_week() {
            self.days_of_week.has(weekday)
        } else {
            true
        }
    }

    /// Whether the day so many days away from 1970-01-01 is one the calendar
    /// names.
    pub open spec fn names_day(self, number: int) -> bool {
        self.names_date(date_of(number).1, date_of(number).2, weekday_of(number))
    }

    /// Whether a local second falls in a minute the calendar allows.
    pub open spec fn names_second(self, local: int) -> bool {
        &&& self.times.has(local % 86_400 / 3_600, local % 3_600 / 60)
        &&& self.names_day(local / 86_400)
    }

    /// Whether the date of this moment is one the calendar names.
    pub fn allows_day(&self, at: &LocalTime) -> (r: bool)
        ensures
            r == self.names_date(at.month as int, at.day as int, at.weekday as int),
            forall|local: int|
                #[trigger] at.reads(local) ==> r == self.names_day(local / 86_400),
    {
        let r = if !self.months.contains(at.month) {
            false
        } else {
            let dom_restricted = !self.days_of_month.is_all(1, 31);
            let dow_restricted = !self.days_of_week.is_all(0, 6);
            let dom = self.days_of_month.contains(at.day);
            let dow = self.days_of_week.contains(at.weekday);
            match (dom_restricted, dow_restricted) {
                (true, true) => dom || dow,
                (true, false) => dom,
                (false, true) => dow,
                (false, false) => true,
            }
        };
        proof {
            assert forall|local: int| #[trigger] at.reads(local) implies r == self.names_day(
                local / 86_400,
            ) by {
                lemma_date_of(at.year as int, at.month as int, at.day as int);
            }
        }
        r
    }

    /// Whether this moment is one the calendar allows.
    pub fn allows(&self, at: &LocalTime) -> (r: bool)
        ensures
            r == (self.times.has(at.hour as int, at.minute as int) && self.names_date(
                at.month as int,
                at.day as int,
                at.weekday as int,
            )),
            forall|local: int| #[trigger] at.reads(local) ==> r == self.names_second(local),
    {
        self.times.allows(at.hour, at.minute) && self.allows_day(at)
    }

    /// Whether some day this calendar names can be followed by another. When
    /// both day fields are restricted the answer is taken to be yes.
    pub open spec fn days_can_follow(self) -> bool {
        if !self.restricts_days_of_month() && !self.restricts_days_of_week() {
            true
        } else if self.restricts_days_of_month() && self.restricts_days_of_week() {
            true
        } else if self.restricts_days_of_month() {
            ||| exists|d: int|
                1 <= d < 31 && #[trigger] self.days_of_month.has(d) && self.days_of_month.has(d + 1)
            ||| self.days_of_month.has(1) && exists|d: int|
                28 <= d <= 31 && #[trigger] self.days_of_month.has(d)
        } else {
            exists|d: int|
                0 <= d < 7 && #[trigger] self.days_of_week.has(d) && self.days_of_week.has(
                    (d + 1) % 7,
                )
        }
    }

    #[verifier::loop_isolation(false)]
    fn days_can_be_consecutive(&self) -> (r: bool)
        ensures
            r == self.days_can_follow(),
    {
        let dom_restricted = !self.days_of_month.is_all(1, 31);
        let dow_restricted = !self.days_of_week.is_all(0, 6);
        if dom_restricted == dow_restricted {
            return true;
        }
        if dom_restricted {
            let mut d: u32 = 1;
            while d < 31
                invariant
                    1 <= d <= 31,
                    forall|e: int|
                        1 <= e < d ==> !(#[trigger] self.days_of_month.has(e)
                            && self.days_of_month.has(e + 1)),
                decreases 31 - d,
            {
                if self.days_of_month.contains(d) && self.days_of_month.contains(d + 1) {
                    assert(self.days_of_month.has(d as int));
                    return true;
                }
                d = d + 1;
            }
            self.days_of_month.contains(1) && (self.days_of_month.contains(28)
                || self.days_of_month.contains(29) || self.days_of_month.contains(30)
                || self.days_of_month.contains(31))
        } else {
            let mut d: u32 = 0;
            while d < 7
                invariant
                    d <= 7,
                    forall|e: int|
                        0 <= e < d ==> !(#[trigger] self.days_of_week.has(e)
                            && self.days_of_week.has((e + 1) % 7)),
                decreases 7 - d,
            {
                if self.days_of_week.contains(d) && self.days_of_week.contains((d + 1) % 7) {
                    assert(self.days_of_week.has(d as int));
                    return true;
                }
                d = d + 1;
            }
            false
        }
    }

    /// Whether two allowed moments can be so many seconds apart: two of one
    /// day, or one and the one before it on the next day.
    pub open spec fn has_gap(self, gap: int) -> bool {
        exists|a: int, b: int|
            #![trigger self.times.has_moment(a), self.times.has_moment(b)]
            self.times.has_moment(a) && self.times.has_moment(b) && a < b && (gap == b - a || (
            self.days_can_follow() && gap == 86_400 - b + a))
    }

    pub open spec fn is_tightest(self, gap: int) -> bool {
        self.has_gap(gap) && forall|other: int| #[trigger] self.has_gap(other) ==> gap <= other
    }

    /// The shortest gap two allowed moments can have, when there are two.
    pub open spec fn tightest(self) -> Option<int> {
        if exists|gap: int| #[trigger] self.is_tightest(gap) {
            Some(choose|gap: int| #[trigger] self.is_tightest(gap))
        } else {
            None
        }
    }

    /// The shortest gap between two moments this calendar allows, in seconds.
    /// `None` when there is at most one allowed minute in the day.
    pub fn tightest_gap(&self) -> (r: Option<i64>)
        ensures
            match r {
                Some(gap) => self.has_gap(gap as int) && forall|other: int|
                    #[trigger] self.has_gap(other) ==> gap <= other,
                None => forall|other: int| !(#[trigger] self.has_gap(other)),
            },
            r matches Some(gap) ==> self.tightest() == Some(gap as int),
            r is None ==> self.tightest() is None,
    {
        let allowed = self.times.moments();
        let n = allowed.len();
        if n < 2 {
            assert forall|other: int| !(#[trigger] self.has_gap(other)) by {
                if self.has_gap(other) {
                    let (a, b) = choose|a: int, b: int|
                        #![trigger self.times.has_moment(a), self.times.has_moment(b)]
                        self.times.has_moment(a) && self.times.has_moment(b) && a < b && (other == b
                            - a || (self.days_can_follow() && other == 86_400 - b + a));
                    assert(holds(allowed@, a) && holds(allowed@, b));
                }
            }
            return None;
        }
        proof {
            assert(holds(allowed@, allowed@[0] as int));
            assert(holds(allowed@, allowed@[1] as int));
            assert(holds(allowed@, allowed@[n - 1] as int));
            self.times.lemma_moment_bound(allowed@[0] as int);
            self.times.lemma_moment_bound(allowed@[1] as int);
            self.times.lemma_moment_bound(allowed@[n - 1] as int);
        }
        let mut gap: i64 = allowed[1] - allowed[0];
        let mut i: usize = 1;
        while i + 1 < n
            invariant
                2 <= n == allowed@.len(),
                1 <= i < n,
                increasing(allowed@),
                forall|second: int| #[trigger]
                    holds(allowed@, second) <==> self.times.has_moment(second),
                self.has_gap(gap as int),
                forall|j: int| 0 <= j < i ==> gap <= #[trigger] allowed@[j + 1] - allowed@[j],
            decreases n - i,
        {
            proof {
                assert(holds(allowed@, allowed@[i as int] as int));
                assert(holds(allowed@, allowed@[i + 1] as int));
                self.times.lemma_moment_bound(allowed@[i as int] as int);
                self.times.lemma_moment_bound(allowed@[i + 1] as int);
            }
            let step: i64 = allowed[i + 1] - allowed[i];
            if step < gap {
                gap = step;
            }
            i = i + 1;
        }
        let follow = self.days_can_be_consecutive();
        if follow {
            let wrap: i64 = 86_400 - allowed[n - 1] + allowed[0];
            if wrap < gap {
                gap = wrap;
            }
        }
        proof {
            assert forall|other: int| #[trigger] self.has_gap(other) implies gap <= other by {
                let (a, b) = choose|a: int, b: int|
                    #![trigger self.times.has_moment(a), self.times.has_moment(b)]
                    self.times.has_moment(a) && self.times.has_moment(b) && a < b && (other == b - a
                        || (self.days_can_follow() && other == 86_400 - b + a));
                assert(holds(allowed@, a) && holds(allowed@, b));
                let x = choose|x: int| 0 <= x < n && #[trigger] allowed@[x] == a;
                let y = choose|y: int| 0 <= y < n && #[trigger] allowed@[y] == b;
                assert(allowed@[x + 1] - allowed@[x] >= gap);
                assert(x + 1 == y || allowed@[x + 1] < allowed@[y]);
                assert(x == 0 || allowed@[0] < allowed@[x]);
                assert(y == n - 1 || allowed@[y] < allowed@[n - 1]);
            }
            assert(self.is_tightest(gap as int));
            let chosen = choose|g: int| #[trigger] self.is_tightest(g);
            assert(self.is_tightest(chosen));
        }
        Some(gap)
    }

    /// Calendars that hold the same fields have the same moments, gaps and room.
    pub proof fn lemma_alike(self, other: Calendar)
        requires
            self.alike(other),
        ensures
            forall|local: int| #[trigger] self.names_second(local) == other.names_second(local),
            forall|number: int| #[trigger] self.names_day(number) == other.names_day(number),
            forall|second: int| #[trigger]
                self.times.has_moment(second) == other.times.has_moment(second),
            forall|gap: int| #[trigger] self.has_gap(gap) == other.has_gap(gap),
            self.tightest() == other.tightest(),
            self.restricts_days() == other.restricts_days(),
            self.room_to_midnight() == other.room_to_midnight(),
    {
        assert forall|second: int| #[trigger]
            self.times.has_moment(second) == other.times.has_moment(second) by {}
        assert forall|gap: int| #[trigger] self.has_gap(gap) == other.has_gap(gap) by {
            if self.has_gap(gap) {
                self.lemma_alike_gap(other, gap);
            }
            if other.has_gap(gap) {
                other.lemma_alike_gap(self, gap);
            }
        }
        assert forall|gap: int| #[trigger] self.is_tightest(gap) == other.is_tightest(gap) by {
            if self.is_tightest(gap) {
                assert forall|o: int| #[trigger] other.has_gap(o) implies gap <= o by {
                    assert(self.has_gap(o));
                }
                assert(other.has_gap(gap));
            }
            if other.is_tightest(gap) {
                assert forall|o: int| #[trigger] self.has_gap(o) implies gap <= o by {
                    assert(other.has_gap(o));
                }
                assert(self.has_gap(gap));
            }
        }
        if exists|gap: int| #[trigger] self.is_tightest(gap) {
            let a = choose|gap: int| #[trigger] self.is_tightest(gap);
            assert(other.is_tightest(a));
            let b = choose|gap: int| #[trigger] other.is_tightest(gap);
            assert(other.is_tightest(b));
            assert(self.is_tightest(b));
        } else {
            assert forall|gap: int| !(#[trigger] other.is_tightest(gap)) by {
                assert(!self.is_tightest(gap));
            }
        }
        assert forall|room: int| #[trigger]
            self.is_room_before_midnight(room) == other.is_room_before_midnight(room) by {
            if self.is_room_before_midnight(room) {
                assert forall|s: int| #[trigger] other.times.has_moment(s) implies room <= 86_400
                    - s by {
                    assert(self.times.has_moment(s));
                }
            }
            if other.is_room_before_midnight(room) {
                assert forall|s: int| #[trigger] self.times.has_moment(s) implies room <= 86_400
                    - s by {
                    assert(other.times.has_moment(s));
                }
            }
        }
        let room = self.lemma_has_room();
        other.lemma_room_to_midnight(room);
        self.lemma_room_to_midnight(room);
    }

    proof fn lemma_alike_gap(self, other: Calendar, gap: int)
        requires
            self.alike(other),
            self.has_gap(gap),
        ensures
            other.has_gap(gap),
    {
        let (a, b) = choose|a: int, b: int|
            #![trigger self.times.has_moment(a), self.times.has_moment(b)]
            self.times.has_moment(a) && self.times.has_moment(b) && a < b && (gap == b - a || (
            self.days_can_follow() && gap == 86_400 - b + a));
        assert(other.times.has_moment(a) && other.times.has_moment(b));
    }

    /// Some number is the room left before midnight.
    proof fn lemma_has_room(self) -> (room: int)
        ensures
            self.is_room_before_midnight(room),
    {
        if exists|s: int| #[trigger] self.times.has_moment(s) {
            let s = choose|s: int| #[trigger] self.times.has_moment(s);
            self.lemma_has_room_below(s)
        } else {
            86_400
        }
    }

    proof fn lemma_has_room_below(self, s: int) -> (room: int)
        requires
            self.times.has_moment(s),
        ensures
            self.is_room_before_midnight(room),
        decreases u32::MAX * 3_660 - s,
    {
        self.times.lemma_moment_bound(s);
        if exists|t: int| #[trigger] self.times.has_moment(t) && t > s {
            let t = choose|t: int| #[trigger] self.times.has_moment(t) && t > s;
            self.times.lemma_moment_bound(t);
            self.lemma_has_room_below(t)
        } else {
            86_400 - s
        }
    }

    /// Whether every time of day is one.
    pub open spec fn times_in_a_day(self) -> bool {
        forall|second: int| #[trigger] self.times.has_moment(second) ==> 0 <= second < 86_400
    }

    /// Whether the day fields name a subset of the days rather than all of
    /// them.
    pub open spec fn restricts_days(self) -> bool {
        self.restricts_days_of_month() || self.restricts_days_of_week()
    }

    pub fn days_are_restricted(&self) -> (r: bool)
        ensures
            r == self.restricts_days(),
    {
        !self.days_of_month.is_all(1, 31) || !self.days_of_week.is_all(0, 6)
    }

    /// How much of the day is left after its last moment, or the whole of it.
    pub open spec fn is_room_before_midnight(self, room: int) -> bool {
        &&& room == 86_400 || self.times.has_moment(86_400 - room)
        &&& forall|second: int| #[trigger] self.times.has_moment(second) ==> room <= 86_400 - second
    }

    pub open spec fn room_to_midnight(self) -> int {
        choose|room: int| #[trigger] self.is_room_before_midnight(room)
    }

    /// There is one such number.
    pub proof fn lemma_room_to_midnight(self, room: int)
        requires
            self.is_room_before_midnight(room),
        ensures
            self.room_to_midnight() == room,
    {
        let other = self.room_to_midnight();
        assert(self.is_room_before_midnight(other));
        if room != 86_400 {
            self.times.lemma_moment_bound(86_400 - room);
        }
        if other != 86_400 {
            self.times.lemma_moment_bound(86_400 - other);
        }
    }

    /// How much of the day is left after its last moment.
    pub fn room_before_midnight(&self) -> (r: i64)
        ensures
            self.is_room_before_midnight(r as int),
            r <= 86_400,
            self.times_in_a_day() ==> 0 < r,
    {
        let allowed = self.times.moments();
        let n = allowed.len();
        if n == 0 {
            assert forall|second: int| !(#[trigger] self.times.has_moment(second)) by {
                assert(!holds(allowed@, second));
            }
            return 86_400;
        }
        proof {
            assert(holds(allowed@, allowed@[n - 1] as int));
            self.times.lemma_moment_bound(allowed@[n - 1] as int);
            assert forall|second: int| #[trigger] self.times.has_moment(second) implies second
                <= allowed@[n - 1] by {
                assert(holds(allowed@, second));
            }
        }
        86_400 - allowed[n - 1]
    }
}

} // verus!
