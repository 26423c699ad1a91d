//! When the monitor runs.
//!
//! An interval is a floor measured from the previous run; `--on`/`--at` and
//! `--cron` both build a [`Calendar`], which is a set of minutes the run is
//! allowed to happen in. Given both, the next run is the first moment that
//! satisfies both.
//!
//! Nothing here reads a clock: every function takes `now` as an argument.
pub mod calendar;
pub mod laws;
pub mod moments;
pub mod next;
pub mod parse;
pub mod syntax;
pub mod zone;

use std::time::Duration;
use vstd::prelude::*;
use vstd::string::*;

use crate::clock::{clamped, duration_nanos, duration_secs, spec_whole_seconds, whole_seconds, Epoch};
use crate::duration::spelling;
use crate::number::{padded, push_i64, push_two_digits, signed_decimal};
use calendar::{Calendar, Times};
use crate::text::words;
use parse::{cron_complaint, field_names, is_cron_calendar, parse_cron, FieldSet};

pub use next::{due, next_moment, wake_at, with_jitter};
pub use parse::{parse_time, Weekday};

verus! {

/// The shortest gap between two runs, in seconds.
pub const MIN_GAP_SECS: i64 = 900;

/// The longest interval a schedule accepts, in seconds: a year.
pub const MAX_INTERVAL_SECS: i64 = 31_622_400;

/// What is wrong with a schedule, said so somebody can fix it.
#[derive(Debug, Clone, PartialEq, Eq)]
pub enum ScheduleError {
    /// Neither an interval nor a calendar.
    Empty,
    TooOften { interval: String, minutes: i64 },
    TooRare { interval: String, days: i64 },
    Unreadable(String),
}

impl ScheduleError {
    /// Whether this is the refusal of a text, in these words.
    pub open spec fn says(self, message: Seq<char>) -> bool {
        self matches ScheduleError::Unreadable(m) && m@ == message
    }

    /// Whether this is the refusal of an interval of so many seconds as too
    /// short.
    pub open spec fn is_too_often(self, seconds: int) -> bool {
        self matches ScheduleError::TooOften { interval, minutes } && interval@ == spelling(
            seconds as nat,
        ) && minutes == MIN_GAP_SECS / 60
    }

    /// Whether this is the refusal of an interval of so many seconds as too
    /// long.
    pub open spec fn is_too_rare(self, seconds: int) -> bool {
        self matches ScheduleError::TooRare { interval, days } && interval@ == spelling(
            seconds as nat,
        ) && days == MAX_INTERVAL_SECS / 86_400
    }

    /// What is shown to a person.
    pub open spec fn message(self) -> Seq<char> {
        match self {
            ScheduleError::Empty =>
                "a schedule needs an interval or a calendar: try --every 6h, or --on mon --at 09:00"@,
            ScheduleError::TooOften { interval, minutes } => interval@
                + " is too often. The monitor does not run twice inside "@ + signed_decimal(
                minutes as int,
            )
                + " minutes: a second run that close cannot see anything the first did not, and it spends requests to find that out."@,
            ScheduleError::TooRare { interval, days } => interval@
                + " is longer than this can schedule. The longest interval is "@ + signed_decimal(
                days as int,
            ) + " days; past that, use a calendar."@,
            ScheduleError::Unreadable(text) => text@,
        }
    }

    pub fn to_string(&self) -> (text: String)
        ensures
            text@ == self.message(),
    {
        let mut out = String::new();
        match self {
            ScheduleError::Empty => {
                out.append(
                    "a schedule needs an interval or a calendar: try --every 6h, or --on mon --at 09:00",
                );
            },
            ScheduleError::TooOften { interval, minutes } => {
                out.append(interval.as_str());
                out.append(" is too often. The monitor does not run twice inside ");
                push_i64(&mut out, *minutes);
                out.append(
                    " minutes: a second run that close cannot see anything the first did not, and it spends requests to find that out.",
                );
            },
            ScheduleError::TooRare { interval, days } => {
                out.append(interval.as_str());
                out.append(" is longer than this can schedule. The longest interval is ");
                push_i64(&mut out, *days);
                out.append(" days; past that, use a calendar.");
            },
            ScheduleError::Unreadable(text) => {
                out.append(text.as_str());
            },
        }
        assert(out@ == self.message());
        out
    }
}

/// Whether a run is owed, and when the next one is.
#[derive(Debug, Clone, Copy, PartialEq, Eq, Structural)]
pub enum Due {
    /// Nothing yet. Sleep until this moment.
    At(Epoch),
    /// Run now. `missed` counts the scheduled runs being folded into this one.
    Now { missed: u32 },
    /// The schedule names no moment at all.
    Never,
}

/// The shorter of two lengths of time.
fn shorter(a: Duration, b: Duration) -> (r: Duration)
    ensures
        r == a || r == b,
        duration_nanos(r) <= duration_nanos(a),
        duration_nanos(r) <= duration_nanos(b),
{
    let (x, y): (u64, u64) = (a.as_secs(), b.as_secs());
    if x < y || (x == y && a.subsec_nanos() <= b.subsec_nanos()) {
        a
    } else {
        b
    }
}

/// The nanoseconds of the jitter a schedule has before anybody sets one: a
/// tenth of the interval, no less than a minute and no more than a quarter of
/// an hour, and the latter when there is no interval.
pub open spec fn default_jitter_nanos(every: Option<Duration>) -> nat {
    match every {
        Some(every) => {
            let tenth = duration_nanos(every) / 10;
            if tenth < 60_000_000_000 {
                60_000_000_000
            } else if tenth > 900_000_000_000 {
                900_000_000_000
            } else {
                tenth
            }
        },
        None => 900_000_000_000,
    }
}

/// How far past its due moment a run may be pushed, before anybody says so.
pub fn default_jitter(every: Option<Duration>) -> (r: Duration)
    ensures
        duration_nanos(r) == default_jitter_nanos(every),
{
    match every {
        None => Duration::from_secs(900),
        Some(every) => {
            let tenth: u128 = (every.as_secs() as u128 * 1_000_000_000 + every.subsec_nanos()
                as u128) / 10;
            if tenth < 60_000_000_000 {
                Duration::from_secs(60)
            } else if tenth > 900_000_000_000 {
                Duration::from_secs(900)
            } else {
                Duration::new((tenth / 1_000_000_000) as u64, (tenth % 1_000_000_000) as u32)
            }
        },
    }
}

/// The floor between two runs: the interval, and never less than the shortest
/// gap.
pub open spec fn step_of(every: Option<Duration>) -> int {
    match every {
        Some(every) => if spec_whole_seconds(every) > MIN_GAP_SECS {
            spec_whole_seconds(every) as int
        } else {
            MIN_GAP_SECS as int
        },
        None => MIN_GAP_SECS as int,
    }
}

fn step_secs(every: Option<Duration>) -> (r: i64)
    ensures
        r == step_of(every),
        r >= MIN_GAP_SECS,
{
    match every {
        Some(every) => {
            let n: i64 = whole_seconds(every);
            if n > MIN_GAP_SECS {
                n
            } else {
                MIN_GAP_SECS
            }
        },
        None => MIN_GAP_SECS,
    }
}

/// The most a run may be pushed later without costing the next one, in
/// nanoseconds.
///
/// On a calendar, the tightest gap less the floor between two runs, and not
/// past midnight when the days are restricted. Without one, the interval.
pub open spec fn room_nanos(grid: Option<Calendar>, every: Option<Duration>) -> int {
    match grid {
        Some(calendar) => {
            let gap = match calendar.tightest() {
                Some(gap) => gap,
                None => 86_400,
            };
            let room = if gap > step_of(every) {
                gap - step_of(every)
            } else {
                0
            };
            let bounded = if calendar.restricts_days() && calendar.room_to_midnight() < room {
                calendar.room_to_midnight()
            } else {
                room
            };
            bounded * 1_000_000_000
        },
        None => match every {
            Some(every) => duration_nanos(every) as int,
            None => 86_400_000_000_000int,
        },
    }
}

fn room_for_jitter(grid: &Option<Calendar>, every: Option<Duration>) -> (r: Duration)
    requires
        *grid matches Some(calendar) ==> calendar.times_in_a_day(),
    ensures
        duration_nanos(r) == room_nanos(*grid, every),
{
    match grid {
        Some(calendar) => {
            let step: i64 = step_secs(every);
            let gap: i64 = match calendar.tightest_gap() {
                Some(gap) => gap,
                None => 86_400,
            };
            proof {
                lemma_gaps_in_a_day(*calendar);
                assert(calendar.tightest() matches Some(gap) ==> calendar.has_gap(gap));
            }
            let mut room: i64 = if gap > step {
                gap - step
            } else {
                0
            };
            if calendar.days_are_restricted() {
                let midnight: i64 = calendar.room_before_midnight();
                proof {
                    calendar.lemma_room_to_midnight(midnight as int);
                }
                if midnight < room {
                    room = midnight;
                }
            }
            Duration::from_secs(room as u64)
        },
        None => match every {
            Some(every) => every,
            None => Duration::from_secs(86_400),
        },
    }
}

proof fn lemma_gaps_in_a_day(calendar: Calendar)
    requires
        calendar.times_in_a_day(),
    ensures
        forall|gap: int| #[trigger] calendar.has_gap(gap) ==> 0 < gap <= 86_400,
{
}

/// Whether a schedule of a calendar and an interval is one that can be run.
pub open spec fn is_runnable(grid: Option<Calendar>, every: Option<Duration>) -> bool {
    match every {
        Some(every) => MIN_GAP_SECS <= duration_secs(every) <= MAX_INTERVAL_SECS,
        None => match grid {
            Some(calendar) => forall|gap: int| #[trigger]
                calendar.has_gap(gap) ==> gap >= MIN_GAP_SECS,
            None => false,
        },
    }
}

/// Whether this is the refusal a schedule that cannot be run is owed.
///
/// An interval is refused as too short or too long. On its own, a calendar is
/// refused for its tightest gap.
pub open spec fn is_refusal(
    grid: Option<Calendar>,
    every: Option<Duration>,
    error: ScheduleError,
) -> bool {
    match every {
        Some(every) => if duration_secs(every) < MIN_GAP_SECS {
            error.is_too_often(duration_secs(every) as int)
        } else {
            duration_secs(every) > MAX_INTERVAL_SECS && error.is_too_rare(
                duration_secs(every) as int,
            )
        },
        None => match grid {
            Some(calendar) => calendar.tightest() matches Some(gap) && gap < MIN_GAP_SECS
                && error.is_too_often(gap),
            None => error is Empty,
        },
    }
}

/// When the monitor runs.
///
/// Every schedule there is can be run, and its jitter is one it can absorb.
#[derive(Debug, PartialEq, Eq)]
pub struct Schedule {
    calendar: Option<Calendar>,
    every: Option<Duration>,
    jitter: Duration,
}

impl Clone for Schedule {
    fn clone(&self) -> (r: Schedule)
        ensures
            match (r.grid(), self.grid()) {
                (Some(a), Some(b)) => a.alike(b),
                (None, None) => true,
                _ => false,
            },
            r.interval() == self.interval(),
            r.jitter_nanos() == self.jitter_nanos(),
    {
        proof {
            use_type_invariant(self);
        }
        let calendar = match &self.calendar {
            Some(calendar) => Some(calendar.clone()),
            None => None,
        };
        proof {
            if self.calendar is Some {
                self.calendar->0.lemma_alike(calendar->0);
                calendar->0.lemma_alike(self.calendar->0);
            }
        }
        Schedule { calendar, every: self.every, jitter: self.jitter }
    }
}

impl Schedule {
    /// Minutes the run may happen in. `None` allows any minute.
    pub closed spec fn grid(self) -> Option<Calendar> {
        self.calendar
    }

    /// Never sooner than this after the previous run. `None` sets no floor.
    pub closed spec fn interval(self) -> Option<Duration> {
        self.every
    }

    /// How far a run may be pushed later, in nanoseconds.
    pub closed spec fn jitter_nanos(self) -> nat {
        duration_nanos(self.jitter)
    }

    /// What holds of every schedule.
    pub open spec fn is_legal(self) -> bool {
        &&& is_runnable(self.grid(), self.interval())
        &&& self.grid() matches Some(calendar) ==> calendar.times_in_a_day()
        &&& self.jitter_nanos() <= room_nanos(self.grid(), self.interval())
    }

    #[verifier::type_invariant]
    spec fn legal(self) -> bool {
        self.is_legal()
    }

    /// A schedule of a calendar and an interval, with a jitter that fits, or
    /// the reason it cannot be run.
    fn validated(calendar: Option<Calendar>, every: Option<Duration>, jitter: Duration) -> (r:
        Result<Schedule, ScheduleError>)
        requires
            calendar matches Some(calendar) ==> calendar.times_in_a_day(),
            is_runnable(calendar, every) ==> duration_nanos(jitter) <= room_nanos(calendar, every),
        ensures
            match r {
                Ok(s) => s.is_legal() && s.grid() == calendar && s.interval() == every
                    && s.jitter_nanos() == duration_nanos(jitter),
                Err(e) => !is_runnable(calendar, every) && is_refusal(calendar, every, e),
            },
    {
        match every {
            Some(every) => {
                let seconds: u64 = every.as_secs();
                if seconds < MIN_GAP_SECS as u64 {
                    return Err(
                        ScheduleError::TooOften {
                            interval: crate::duration::format(every),
                            minutes: MIN_GAP_SECS / 60,
                        },
                    );
                }
                if seconds > MAX_INTERVAL_SECS as u64 {
                    return Err(
                        ScheduleError::TooRare {
                            interval: crate::duration::format(every),
                            days: MAX_INTERVAL_SECS / 86_400,
                        },
                    );
                }
            },
            None => match &calendar {
                None => {
                    return Err(ScheduleError::Empty);
                },
                Some(calendar) => match calendar.tightest_gap() {
                    None => {},
                    Some(gap) => {
                        if gap < MIN_GAP_SECS {
                            proof {
                                lemma_gaps_in_a_day(*calendar);
                            }
                            return Err(
                                ScheduleError::TooOften {
                                    interval: crate::duration::format(
                                        Duration::from_secs(gap as u64),
                                    ),
                                    minutes: MIN_GAP_SECS / 60,
                                },
                            );
                        }
                    },
                },
            },
        }
        Ok(Schedule { calendar, every, jitter })
    }

    /// Whether the moments this fires at are named rather than measured.
    pub fn is_on_a_calendar(&self) -> (r: bool)
        ensures
            r == (self.grid() is Some),
    {
        self.calendar.is_some()
    }

    /// The minutes the run may happen in, when they are restricted.
    pub fn calendar_ref(&self) -> (r: Option<&Calendar>)
        ensures
            match r {
                Some(calendar) => self.grid() == Some(*calendar),
                None => self.grid() is None,
            },
    {
        self.calendar.as_ref()
    }

    pub fn jitter(&self) -> (r: Duration)
        ensures
            duration_nanos(r) == self.jitter_nanos(),
    {
        self.jitter
    }

    /// Every so often, counted from the previous run.
    pub fn every(interval: Duration) -> (r: Result<Schedule, ScheduleError>)
        ensures
            match r {
                Ok(s) => {
                    &&& s.is_legal()
                    &&& s.grid() is None
                    &&& s.interval() == Some(interval)
                    &&& s.jitter_nanos() == default_jitter_nanos(Some(interval))
                },
                Err(e) => !is_runnable(None, Some(interval)) && is_refusal(
                    None,
                    Some(interval),
                    e,
                ),
            },
    {
        Schedule::validated(None, Some(interval), default_jitter(Some(interval)))
    }

    /// The jitter brought down to what a calendar and an interval can absorb.
    fn fitted(calendar: &Option<Calendar>, every: Option<Duration>, jitter: Duration) -> (r: Duration)
        requires
            *calendar matches Some(calendar) ==> calendar.times_in_a_day(),
        ensures
            duration_nanos(r) == fitted_nanos(*calendar, every, duration_nanos(jitter)),
    {
        shorter(jitter, room_for_jitter(calendar, every))
    }

    /// On these weekdays, at these times of day. Empty days means every day.
    pub fn calendar(days: &[Weekday], times: &[(u32, u32)]) -> (r: Result<Schedule, ScheduleError>)
        ensures
            match r {
                Ok(s) => {
                    &&& s.is_legal()
                    &&& s.grid() matches Some(calendar)
                    &&& is_named_calendar(calendar, days@, times@)
                    &&& times@.len() > 0
                    &&& s.interval() is None
                    &&& s.jitter_nanos() == fitted_nanos(s.grid(), None, 900_000_000_000)
                },
                Err(e) => is_calendar_refusal(days@, times@, e),
            },
            r is Ok <==> {
                &&& times@.len() > 0
                &&& forall|i: int| 0 <= i < times@.len() ==> is_time_of_day(#[trigger] times@[i])
                &&& forall|calendar: Calendar|
                    is_named_calendar(calendar, days@, times@) ==> #[trigger] is_runnable(
                        Some(calendar),
                        None,
                    )
            },
    {
        if times.len() == 0 {
            let mut out = String::new();
            out.append("a calendar needs a time of day: try --at 09:00");
            assert(out@ == "a calendar needs a time of day: try --at 09:00"@);
            return Err(ScheduleError::Unreadable(out));
        }
        let mut exact: Vec<(u32, u32)> = Vec::new();
        let mut i: usize = 0;
        while i < times.len()
            invariant
                i <= times@.len(),
                forall|j: int| 0 <= j < i ==> is_time_of_day(#[trigger] times@[j]),
                in_order(exact@),
                forall|t: (u32, u32)| #[trigger]
                    exact@.contains(t) <==> times@.take(i as int).contains(t),
            decreases times@.len() - i,
        {
            let (hour, minute): (u32, u32) = times[i];
            if hour > 23 || minute > 59 {
                let mut out = String::new();
                push_two_digits(&mut out, hour as u64);
                out.append(":");
                push_two_digits(&mut out, minute as u64);
                out.append(" is not a time of day");
                assert(out@ == bad_time_of_day_message(times@[i as int]));
                assert(!is_time_of_day(times@[i as int]));
                let refusal = ScheduleError::Unreadable(out);
                assert(refusal.says(bad_time_of_day_message(times@[i as int])));
                return Err(refusal);
            }
            insert_time(&mut exact, (hour, minute));
            proof {
                let (before, after) = (times@.take(i as int), times@.take(i + 1));
                assert(after == before.push(times@[i as int]));
                assert forall|t: (u32, u32)| #[trigger] exact@.contains(t) <==> after.contains(
                    t,
                ) by {
                    lemma_push_contains(before, times@[i as int], t);
                }
            }
            i = i + 1;
        }
        let days_of_week = if days.len() == 0 {
            FieldSet::all(0, 6)
        } else {
            day_set(days)
        };
        let calendar = Calendar {
            times: Times::Exact(exact),
            days_of_month: FieldSet::all(1, 31),
            months: FieldSet::all(1, 12),
            days_of_week,
        };
        proof {
            assert(times@.take(times@.len() as int) == times@);
            assert(is_named_calendar(calendar, days@, times@));
            lemma_named_times_in_a_day(calendar, days@, times@);
            assert forall|other: Calendar|
                is_named_calendar(other, days@, times@) implies #[trigger] is_runnable(
                Some(other),
                None,
            ) == is_runnable(Some(calendar), None) by {
                lemma_named_alike(calendar, other, days@, times@);
                calendar.lemma_alike(other);
                other.lemma_alike(calendar);
            }
        }
        let calendar = Some(calendar);
        let jitter = Schedule::fitted(&calendar, None, default_jitter(None));
        Schedule::validated(calendar, None, jitter)
    }

    /// On these weekdays, as often as the interval allows.
    ///
    /// Empty days are refused rather than read as every day: that would be an
    /// interval wearing a calendar.
    pub fn days(days: &[Weekday], interval: Duration) -> (r: Result<Schedule, ScheduleError>)
        ensures
            match r {
                Ok(s) => {
                    &&& s.is_legal()
                    &&& s.grid() matches Some(calendar)
                    &&& is_whole_days_calendar(calendar, days@)
                    &&& s.interval() == Some(interval)
                    &&& s.jitter_nanos() == fitted_nanos(
                        s.grid(),
                        Some(interval),
                        default_jitter_nanos(Some(interval)),
                    )
                },
                Err(e) => if days@.len() == 0 {
                    e.says("which days? try --on mon,thu, or --every 6h for no particular day"@)
                } else {
                    is_refusal(None, Some(interval), e)
                },
            },
            r is Ok <==> days@.len() > 0 && is_runnable(None, Some(interval)),
    {
        if days.len() == 0 {
            let mut out = String::new();
            out.append("which days? try --on mon,thu, or --every 6h for no particular day");
            assert(out@
                == "which days? try --on mon,thu, or --every 6h for no particular day"@);
            return Err(ScheduleError::Unreadable(out));
        }
        let calendar = Some(
            Calendar {
                times: Times::Crossed {
                    minutes: FieldSet::all(0, 59),
                    hours: FieldSet::all(0, 23),
                },
                days_of_month: FieldSet::all(1, 31),
                months: FieldSet::all(1, 12),
                days_of_week: day_set(days),
            },
        );
        let every = Some(interval);
        let jitter = Schedule::fitted(&calendar, every, default_jitter(every));
        Schedule::validated(calendar, every, jitter)
    }

    /// A five-field cron expression.
    pub fn cron(expression: &str) -> (r: Result<Schedule, ScheduleError>)
        ensures
            match r {
                Ok(s) => {
                    &&& s.is_legal()
                    &&& cron_complaint(expression@) is None
                    &&& s.grid() matches Some(calendar)
                    &&& is_cron_calendar(calendar, words(expression@))
                    &&& s.interval() is None
                    &&& s.jitter_nanos() == fitted_nanos(s.grid(), None, 900_000_000_000)
                },
                Err(e) => match cron_complaint(expression@) {
                    Some(message) => e.says(message),
                    None => exists|calendar: Calendar|
                        is_cron_calendar(calendar, words(expression@)) && !is_runnable(
                            Some(calendar),
                            None,
                        ) && #[trigger] is_refusal(Some(calendar), None, e),
                },
            },
            r is Ok <==> cron_complaint(expression@) is None && forall|calendar: Calendar|
                is_cron_calendar(calendar, words(expression@)) ==> #[trigger] is_runnable(
                    Some(calendar),
                    None,
                ),
    {
        let calendar = match parse_cron(expression) {
            Ok(calendar) => Some(calendar),
            Err(e) => {
                return Err(e);
            },
        };
        proof {
            assert forall|other: Calendar|
                is_cron_calendar(other, words(expression@)) implies #[trigger] is_runnable(
                Some(other),
                None,
            ) == is_runnable(calendar, None) by {
                lemma_cron_alike(calendar->0, other, words(expression@));
                calendar->0.lemma_alike(other);
                other.lemma_alike(calendar->0);
            }
        }
        let jitter = Schedule::fitted(&calendar, None, default_jitter(None));
        Schedule::validated(calendar, None, jitter)
    }

    /// Adds a floor to a calendar, or replaces the interval of a schedule
    /// without one.
    pub fn and_every(self, interval: Duration) -> (r: Result<Schedule, ScheduleError>)
        ensures
            match r {
                Ok(s) => {
                    &&& s.is_legal()
                    &&& s.grid() == self.grid()
                    &&& s.interval() == Some(interval)
                    &&& s.jitter_nanos() == fitted_nanos(
                        self.grid(),
                        Some(interval),
                        if self.grid() is None {
                            default_jitter_nanos(Some(interval))
                        } else {
                            self.jitter_nanos()
                        },
                    )
                },
                Err(e) => !is_runnable(self.grid(), Some(interval)) && is_refusal(
                    self.grid(),
                    Some(interval),
                    e,
                ),
            },
    {
        proof {
            use_type_invariant(&self);
        }
        let every = Some(interval);
        let jitter = if self.calendar.is_none() {
            default_jitter(every)
        } else {
            self.jitter
        };
        let jitter = Schedule::fitted(&self.calendar, every, jitter);
        Schedule::validated(self.calendar, every, jitter)
    }

    /// Sets how far a run may be pushed past its due moment, bounded to what
    /// the schedule can absorb.
    #[must_use]
    pub fn with_jitter(self, jitter: Duration) -> (r: Schedule)
        ensures
            r.is_legal(),
            r.grid() == self.grid(),
            r.interval() == self.interval(),
            r.jitter_nanos() == fitted_nanos(self.grid(), self.interval(), duration_nanos(jitter)),
    {
        proof {
            use_type_invariant(&self);
        }
        let jitter = Schedule::fitted(&self.calendar, self.every, jitter);
        Schedule { calendar: self.calendar, every: self.every, jitter }
    }
}

/// A jitter brought down to the room there is for one, in nanoseconds.
pub open spec fn fitted_nanos(grid: Option<Calendar>, every: Option<Duration>, jitter: nat) -> int {
    if jitter <= room_nanos(grid, every) {
        jitter as int
    } else {
        room_nanos(grid, every)
    }
}

pub open spec fn is_time_of_day(time: (u32, u32)) -> bool {
    time.0 <= 23 && time.1 <= 59
}

/// What is said of a pair of numbers that is not a time of day.
pub open spec fn bad_time_of_day_message(time: (u32, u32)) -> Seq<char> {
    padded(time.0 as nat) + ":"@ + padded(time.1 as nat) + " is not a time of day"@
}

/// Whether one time of day comes before another.
pub open spec fn earlier(a: (u32, u32), b: (u32, u32)) -> bool {
    a.0 < b.0 || (a.0 == b.0 && a.1 < b.1)
}

/// Whether each time comes before the next.
pub open spec fn in_order(times: Seq<(u32, u32)>) -> bool {
    forall|i: int, j: int| 0 <= i < j < times.len() ==> #[trigger] earlier(times[i], times[j])
}

/// Whether a set holds the numbers of these days and no others.
pub open spec fn is_day_set(set: FieldSet, days: Seq<Weekday>) -> bool {
    forall|v: int| #[trigger]
        set.has(v) <==> exists|i: int| 0 <= i < days.len() && (#[trigger] days[i]).index() == v
}

/// Whether a calendar is the one these days and times of day name: those times
/// in order, on those days or, when there are none, on every day.
pub open spec fn is_named_calendar(
    calendar: Calendar,
    days: Seq<Weekday>,
    times: Seq<(u32, u32)>,
) -> bool {
    &&& calendar.times matches Times::Exact(exact)
    &&& in_order(exact@)
    &&& forall|t: (u32, u32)| #[trigger] exact@.contains(t) <==> times.contains(t)
    &&& calendar.days_of_month.is_whole(1, 31)
    &&& calendar.months.is_whole(1, 12)
    &&& if days.len() == 0 {
        calendar.days_of_week.is_whole(0, 6)
    } else {
        is_day_set(calendar.days_of_week, days)
    }
}

/// Whether a calendar is every minute of these days.
pub open spec fn is_whole_days_calendar(calendar: Calendar, days: Seq<Weekday>) -> bool {
    &&& calendar.times matches Times::Crossed { minutes, hours }
    &&& minutes.is_whole(0, 59)
    &&& hours.is_whole(0, 23)
    &&& calendar.days_of_month.is_whole(1, 31)
    &&& calendar.months.is_whole(1, 12)
    &&& is_day_set(calendar.days_of_week, days)
}

/// Whether this is the refusal days and times of day are owed: that there is no
/// time, the first of them that is not one, or that they are too close.
pub open spec fn is_calendar_refusal(
    days: Seq<Weekday>,
    times: Seq<(u32, u32)>,
    error: ScheduleError,
) -> bool {
    if times.len() == 0 {
        error.says("a calendar needs a time of day: try --at 09:00"@)
    } else {
        ||| exists|i: int|
            0 <= i < times.len() && !is_time_of_day(times[i]) && (forall|j: int|
                0 <= j < i ==> is_time_of_day(#[trigger] times[j])) && #[trigger] error.says(
                bad_time_of_day_message(times[i]),
            )
        ||| (forall|j: int| 0 <= j < times.len() ==> is_time_of_day(#[trigger] times[j]))
            && exists|calendar: Calendar|
            is_named_calendar(calendar, days, times) && #[trigger] is_refusal(
                Some(calendar),
                None,
                error,
            )
    }
}

/// Puts a time in its place in a list that is in order, unless it is there.
fn insert_time(v: &mut Vec<(u32, u32)>, time: (u32, u32))
    requires
        in_order(old(v)@),
    ensures
        in_order(final(v)@),
        forall|t: (u32, u32)| #[trigger]
            final(v)@.contains(t) <==> old(v)@.contains(t) || t == time,
{
    let mut i: usize = v.len();
    while i > 0 && (time.0 < v[i - 1].0 || (time.0 == v[i - 1].0 && time.1 < v[i - 1].1))
        invariant
            i <= v@.len(),
            v@ == old(v)@,
            forall|j: int| i <= j < v@.len() ==> earlier(time, #[trigger] v@[j]),
        decreases i,
    {
        i = i - 1;
    }
    let ghost before = v@;
    if i > 0 && v[i - 1].0 == time.0 && v[i - 1].1 == time.1 {
        assert(before[i - 1] == time);
        assert(before.contains(time));
        return;
    }
    v.insert(i, time);
    proof {
        assert(v@ == before.insert(i as int, time));
        assert forall|t: (u32, u32)| #[trigger] v@.contains(t) <==> before.contains(t) || t
            == time by {
            if before.contains(t) {
                let j = choose|j: int| 0 <= j < before.len() && #[trigger] before[j] == t;
                if j < i {
                    assert(v@[j] == t);
                } else {
                    assert(v@[j + 1] == t);
                }
            }
            if t == time {
                assert(v@[i as int] == t);
            }
            if v@.contains(t) {
                let j = choose|j: int| 0 <= j < v@.len() && #[trigger] v@[j] == t;
                if j < i {
                    assert(before[j] == t);
                } else if j > i {
                    assert(before[j - 1] == t);
                }
            }
        }
        assert forall|a: int, b: int| 0 <= a < b < v@.len() implies #[trigger] earlier(
            v@[a],
            v@[b],
        ) by {
            if b < i {
                assert(earlier(before[a], before[b]));
            } else if a > i {
                assert(earlier(before[a - 1], before[b - 1]));
            } else if a < i && b > i {
                assert(earlier(before[a], before[b - 1]));
            } else if a < i && b == i {
                if a < i - 1 {
                    assert(earlier(before[a], before[i - 1]));
                }
            } else {
                assert(earlier(time, before[b - 1]));
            }
        }
    }
}

proof fn lemma_push_contains(s: Seq<(u32, u32)>, x: (u32, u32), t: (u32, u32))
    ensures
        s.push(x).contains(t) <==> s.contains(t) || t == x,
{
    let after = s.push(x);
    if s.contains(t) {
        let j = choose|j: int| 0 <= j < s.len() && #[trigger] s[j] == t;
        assert(after[j] == t);
    }
    if t == x {
        assert(after[s.len() as int] == t);
    }
    if after.contains(t) {
        let j = choose|j: int| 0 <= j < after.len() && #[trigger] after[j] == t;
        if j < s.len() {
            assert(s[j] == t);
        }
    }
}

/// The numbers of these days.
fn day_set(days: &[Weekday]) -> (set: FieldSet)
    ensures
        is_day_set(set, days@),
{
    let mut set = FieldSet::none();
    let mut i: usize = 0;
    while i < days.len()
        invariant
            i <= days@.len(),
            forall|v: int| #[trigger]
                set.has(v) <==> exists|j: int| 0 <= j < i && (#[trigger] days@[j]).index() == v,
        decreases days@.len() - i,
    {
        let day = days[i];
        let ghost before = set;
        set = set.with(day.number());
        assert forall|v: int| #[trigger] set.has(v) <==> exists|j: int|
            0 <= j < i + 1 && (#[trigger] days@[j]).index() == v by {
            assert(set.has(v) <==> before.has(v) || v == day.index());
            if v == day.index() {
                assert(days@[i as int].index() == v);
            }
        }
        i = i + 1;
    }
    set
}

proof fn lemma_named_times_in_a_day(
    calendar: Calendar,
    days: Seq<Weekday>,
    times: Seq<(u32, u32)>,
)
    requires
        is_named_calendar(calendar, days, times),
        forall|i: int| 0 <= i < times.len() ==> is_time_of_day(#[trigger] times[i]),
    ensures
        calendar.times_in_a_day(),
{
    let exact = calendar.times->Exact_0;
    assert forall|second: int| #[trigger] calendar.times.has_moment(second) implies 0 <= second
        < 86_400 by {
        let i = choose|i: int|
            0 <= i < exact@.len() && second == (#[trigger] exact@[i]).0 * 3_600 + exact@[i].1 * 60;
        assert(exact@.contains(exact@[i]));
        assert(times.contains(exact@[i]));
        let j = choose|j: int| 0 <= j < times.len() && #[trigger] times[j] == exact@[i];
        assert(is_time_of_day(times[j]));
    }
}

/// Two lists in order that hold the same times are the same list.
proof fn lemma_same_order(a: Seq<(u32, u32)>, b: Seq<(u32, u32)>)
    requires
        in_order(a),
        in_order(b),
        forall|t: (u32, u32)| #[trigger] a.contains(t) <==> b.contains(t),
    ensures
        a == b,
    decreases a.len(),
{
    if a.len() == 0 {
        if b.len() > 0 {
            assert(b.contains(b[0]));
            assert(a.contains(b[0]));
        }
        assert(a == b);
    } else {
        let x = a.last();
        assert(a[a.len() - 1] == x);
        assert(a.contains(x));
        assert(b.contains(x));
        assert(b.len() > 0);
        let y = b.last();
        assert(b[b.len() - 1] == y);
        assert(b.contains(y));
        assert(a.contains(y));
        let i = choose|i: int| 0 <= i < b.len() && #[trigger] b[i] == x;
        let j = choose|j: int| 0 <= j < a.len() && #[trigger] a[j] == y;
        if i < b.len() - 1 {
            assert(earlier(b[i], b[b.len() - 1]));
        }
        if j < a.len() - 1 {
            assert(earlier(a[j], a[a.len() - 1]));
        }
        assert(x == y);
        let (c, d) = (a.drop_last(), b.drop_last());
        assert forall|t: (u32, u32)| #[trigger] c.contains(t) <==> d.contains(t) by {
            lemma_all_but_last(a, t);
            lemma_all_but_last(b, t);
        }
        assert forall|p: int, q: int| 0 <= p < q < c.len() implies #[trigger] earlier(
            c[p],
            c[q],
        ) by {
            assert(earlier(a[p], a[q]));
        }
        assert forall|p: int, q: int| 0 <= p < q < d.len() implies #[trigger] earlier(
            d[p],
            d[q],
        ) by {
            assert(earlier(b[p], b[q]));
        }
        lemma_same_order(c, d);
        assert(a == c.push(x));
        assert(b == d.push(x));
    }
}

proof fn lemma_all_but_last(a: Seq<(u32, u32)>, t: (u32, u32))
    requires
        in_order(a),
        a.len() > 0,
    ensures
        a.drop_last().contains(t) <==> a.contains(t) && t != a.last(),
{
    let c = a.drop_last();
    if c.contains(t) {
        let i = choose|i: int| 0 <= i < c.len() && #[trigger] c[i] == t;
        assert(a[i] == t);
        assert(earlier(a[i], a[a.len() - 1]));
    }
    if a.contains(t) && t != a.last() {
        let i = choose|i: int| 0 <= i < a.len() && #[trigger] a[i] == t;
        assert(c[i] == t);
    }
}

/// The calendars that the same days and times name hold the same fields.
proof fn lemma_named_alike(
    a: Calendar,
    b: Calendar,
    days: Seq<Weekday>,
    times: Seq<(u32, u32)>,
)
    requires
        is_named_calendar(a, days, times),
        is_named_calendar(b, days, times),
    ensures
        a.alike(b),
{
    let (x, y) = (a.times->Exact_0, b.times->Exact_0);
    assert forall|t: (u32, u32)| #[trigger] x@.contains(t) <==> y@.contains(t) by {
        assert(x@.contains(t) <==> times.contains(t));
        assert(y@.contains(t) <==> times.contains(t));
    }
    lemma_same_order(x@, y@);
    lemma_whole_alike(a.days_of_month, b.days_of_month, 1, 31);
    lemma_whole_alike(a.months, b.months, 1, 12);
    if days.len() == 0 {
        lemma_whole_alike(a.days_of_week, b.days_of_week, 0, 6);
    } else {
        assert forall|v: int| 0 <= v < 64 implies #[trigger] a.days_of_week.has(v)
            == b.days_of_week.has(v) by {}
        parse::lemma_same_members(a.days_of_week, b.days_of_week);
    }
}

/// The calendars that the same five fields describe hold the same fields.
proof fn lemma_cron_alike(a: Calendar, b: Calendar, fields: Seq<Seq<char>>)
    requires
        is_cron_calendar(a, fields),
        is_cron_calendar(b, fields),
    ensures
        a.alike(b),
{
    let (p, q) = (a.times->minutes, b.times->minutes);
    assert forall|v: int| 0 <= v < 64 implies #[trigger] p.has(v) == q.has(v) by {
        assert(p.has(v) <==> field_names(fields[0], 0, 59, "minute"@, v));
        assert(q.has(v) <==> field_names(fields[0], 0, 59, "minute"@, v));
    }
    parse::lemma_same_members(p, q);
    let (p, q) = (a.times->hours, b.times->hours);
    assert forall|v: int| 0 <= v < 64 implies #[trigger] p.has(v) == q.has(v) by {
        assert(p.has(v) <==> field_names(fields[1], 0, 23, "hour"@, v));
        assert(q.has(v) <==> field_names(fields[1], 0, 23, "hour"@, v));
    }
    parse::lemma_same_members(p, q);
    assert forall|v: int| 0 <= v < 64 implies #[trigger] a.days_of_month.has(v)
        == b.days_of_month.has(v) by {
        assert(a.days_of_month.has(v) <==> field_names(fields[2], 1, 31, "day of month"@, v));
        assert(b.days_of_month.has(v) <==> field_names(fields[2], 1, 31, "day of month"@, v));
    }
    parse::lemma_same_members(a.days_of_month, b.days_of_month);
    assert forall|v: int| 0 <= v < 64 implies #[trigger] a.months.has(v) == b.months.has(v) by {
        assert(a.months.has(v) <==> field_names(fields[3], 1, 12, "month"@, v));
        assert(b.months.has(v) <==> field_names(fields[3], 1, 12, "month"@, v));
    }
    parse::lemma_same_members(a.months, b.months);
    assert forall|v: int| 0 <= v < 64 implies #[trigger] a.days_of_week.has(v)
        == b.days_of_week.has(v) by {
        assert(a.days_of_week.has(v) == b.days_of_week.has(v));
    }
    parse::lemma_same_members(a.days_of_week, b.days_of_week);
}

proof fn lemma_whole_alike(a: FieldSet, b: FieldSet, start: int, end: int)
    requires
        a.is_whole(start, end),
        b.is_whole(start, end),
    ensures
        a == b,
{
    assert forall|v: int| 0 <= v < 64 implies #[trigger] a.has(v) == b.has(v) by {
        assert(a.has(v) <==> start <= v <= end);
        assert(b.has(v) <==> start <= v <= end);
    }
    parse::lemma_same_members(a, b);
}

} // verus!
