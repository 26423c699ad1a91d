//! What time it is, in the two units this project counts in.
//!
//! Seconds are the domain unit and milliseconds are the rate-control unit, and
//! nothing converts between them by hand.
use std::time::Duration;
use vstd::prelude::*;

use crate::number::{signed_decimal, write_i64};
use crate::watch::schedule::zone::in_range;

verus! {

/// What `Duration::as_nanos` returns for a length of time.
pub uninterp spec fn duration_nanos(length: Duration) -> nat;

/// The whole seconds in a length of time.
pub open spec fn duration_secs(length: Duration) -> nat {
    duration_nanos(length) / 1_000_000_000
}

/// `Duration::from_secs` makes a length of so many whole seconds.
pub assume_specification[ Duration::from_secs ](secs: u64) -> (r: Duration)
    ensures
        duration_nanos(r) == secs * 1_000_000_000,
;

/// `Duration::new` makes a length of so many seconds and nanoseconds. It
/// panics where the carry out of the nanoseconds overflows the seconds.
pub assume_specification[ Duration::new ](secs: u64, nanos: u32) -> (r: Duration)
    requires
        secs + nanos / 1_000_000_000 <= u64::MAX,
    ensures
        duration_nanos(r) == secs * 1_000_000_000 + nanos,
;

/// `Duration::as_secs` is the number of whole seconds.
pub assume_specification[ Duration::as_secs ](length: &Duration) -> (r: u64)
    ensures
        r == duration_nanos(*length) / 1_000_000_000,
;

/// `Duration::subsec_nanos` is what is left over after the whole seconds.
pub assume_specification[ Duration::subsec_nanos ](length: &Duration) -> (r: u32)
    ensures
        r == duration_nanos(*length) % 1_000_000_000,
;

/// `Duration::as_millis` is the number of whole milliseconds.
pub assume_specification[ Duration::as_millis ](length: &Duration) -> (r: u128)
    ensures
        r == duration_nanos(*length) / 1_000_000,
;

/// `Duration` is `Copy`, and its `clone` is the same length of time.
pub assume_specification[ <Duration as Clone>::clone ](length: &Duration) -> (r: Duration)
    ensures
        r == *length,
;

/// A number brought into the range of a moment.
pub open spec fn clamped(n: int) -> i64 {
    if n < i64::MIN {
        i64::MIN
    } else if n > i64::MAX {
        i64::MAX
    } else {
        n as i64
    }
}

fn clamp(n: i128) -> (r: i64)
    ensures
        r == clamped(n as int),
{
    if n < i64::MIN as i128 {
        i64::MIN
    } else if n > i64::MAX as i128 {
        i64::MAX
    } else {
        n as i64
    }
}

/// A moment, in seconds since the Unix epoch.
#[derive(Clone, Copy, Debug, Hash, PartialEq, Eq, PartialOrd, Ord, Structural)]
pub struct Epoch(pub i64);

/// A moment, in milliseconds since the Unix epoch.
#[derive(Clone, Copy, Debug, Hash, PartialEq, Eq, PartialOrd, Ord, Structural)]
pub struct EpochMs(pub i64);

impl Default for Epoch {
    fn default() -> (r: Epoch)
        ensures
            r == Epoch(0),
    {
        Epoch(0)
    }
}

impl Default for EpochMs {
    fn default() -> (r: EpochMs)
        ensures
            r == EpochMs(0),
    {
        EpochMs(0)
    }
}

impl Epoch {
    /// The moment this number names.
    pub fn new(seconds: i64) -> (r: Epoch)
        ensures
            r == Epoch(seconds),
    {
        Epoch(seconds)
    }

    /// The number back out.
    pub fn get(self) -> (r: i64)
        ensures
            r == self.0,
    {
        self.0
    }

    /// The same moment in the rate-control unit, stopping at the ends of what
    /// that unit can name.
    pub open spec fn in_ms(self) -> EpochMs {
        EpochMs(clamped(self.0 * 1_000))
    }

    pub fn to_ms(self) -> (r: EpochMs)
        ensures
            r == self.in_ms(),
    {
        EpochMs(clamp(self.0 as i128 * 1_000))
    }

    /// The bare number.
    pub fn to_string(&self) -> (text: String)
        ensures
            text@ == signed_decimal(self.0 as int),
    {
        write_i64(self.0)
    }

    /// The moment a number of seconds later, stopping at the end of time.
    pub open spec fn later(self, seconds: int) -> Epoch {
        Epoch(clamped(self.0 + seconds))
    }
}

impl EpochMs {
    /// The moment this number names.
    pub fn new(milliseconds: i64) -> (r: EpochMs)
        ensures
            r == EpochMs(milliseconds),
    {
        EpochMs(milliseconds)
    }

    /// The number back out.
    pub fn get(self) -> (r: i64)
        ensures
            r == self.0,
    {
        self.0
    }

    /// The second this moment falls in. Rounded down, on either side of the
    /// epoch.
    pub open spec fn in_seconds(self) -> Epoch {
        Epoch((self.0 as int / 1_000) as i64)
    }

    pub fn to_epoch(self) -> (r: Epoch)
        ensures
            r == self.in_seconds(),
    {
        Epoch(floor_div(self.0, 1_000))
    }

    /// The bare number.
    pub fn to_string(&self) -> (text: String)
        ensures
            text@ == signed_decimal(self.0 as int),
    {
        write_i64(self.0)
    }
}

/// The quotient rounded down.
pub fn floor_div(n: i64, d: i64) -> (q: i64)
    requires
        d > 0,
    ensures
        q == n as int / d as int,
{
    if n >= 0 {
        n / d
    } else {
        // -1 - n is not negative, and one less than the distance to zero.
        let q: i64 = (-1 - n) / d;
        let r: i64 = -1 - q;
        proof {
            let m = -1 - n as int;
            vstd::arithmetic::div_mod::lemma_fundamental_div_mod(m, d as int);
            assert(n as int == d * r + (d - 1 - m % (d as int))) by (nonlinear_arith)
                requires
                    m == -1 - n as int,
                    m == d * q + m % (d as int),
                    r == -1 - q,
            ;
            vstd::arithmetic::div_mod::lemma_fundamental_div_mod_converse(
                n as int,
                d as int,
                r as int,
                d - 1 - m % (d as int),
            );
        }
        r
    }
}

/// What is left of a number after the quotient rounded down.
pub fn floor_mod(n: i64, d: i64) -> (r: i64)
    requires
        d > 0,
    ensures
        r == n as int % d as int,
        0 <= r < d,
{
    let q: i64 = floor_div(n, d);
    proof {
        vstd::arithmetic::div_mod::lemma_fundamental_div_mod(n as int, d as int);
        vstd::arithmetic::div_mod::lemma_mod_bound(n as int, d as int);
    }
    (n as i128 - d as i128 * q as i128) as i64
}

impl From<i64> for Epoch {
    fn from(seconds: i64) -> (r: Epoch) {
        Epoch(seconds)
    }
}

impl vstd::std_specs::convert::FromSpecImpl<i64> for Epoch {
    open spec fn obeys_from_spec() -> bool {
        true
    }

    open spec fn from_spec(seconds: i64) -> Epoch {
        Epoch(seconds)
    }
}

impl From<i64> for EpochMs {
    fn from(milliseconds: i64) -> (r: EpochMs) {
        EpochMs(milliseconds)
    }
}

impl vstd::std_specs::convert::FromSpecImpl<i64> for EpochMs {
    open spec fn obeys_from_spec() -> bool {
        true
    }

    open spec fn from_spec(milliseconds: i64) -> EpochMs {
        EpochMs(milliseconds)
    }
}

/// A length of time as whole seconds, stopping at the largest a moment can be.
pub open spec fn spec_whole_seconds(length: Duration) -> i64 {
    clamped(duration_secs(length) as int)
}

/// A length of time as whole milliseconds, likewise.
pub open spec fn spec_whole_milliseconds(length: Duration) -> i64 {
    clamped((duration_nanos(length) / 1_000_000) as int)
}

pub fn whole_seconds(length: Duration) -> (r: i64)
    ensures
        r == spec_whole_seconds(length),
        r >= 0,
{
    clamp(length.as_secs() as i128)
}

pub fn whole_milliseconds(length: Duration) -> (r: i64)
    ensures
        r == spec_whole_milliseconds(length),
        r >= 0,
{
    let n: u128 = length.as_millis();
    if n > i64::MAX as u128 {
        i64::MAX
    } else {
        n as i64
    }
}

impl std::ops::Add<Duration> for Epoch {
    type Output = Epoch;

    fn add(self, length: Duration) -> (r: Epoch) {
        Epoch(clamp(self.0 as i128 + whole_seconds(length) as i128))
    }
}

impl vstd::std_specs::ops::AddSpecImpl<Duration> for Epoch {
    open spec fn obeys_add_spec() -> bool {
        true
    }

    open spec fn add_req(self, length: Duration) -> bool {
        true
    }

    open spec fn add_spec(self, length: Duration) -> Epoch {
        Epoch(clamped(self.0 + spec_whole_seconds(length)))
    }
}

impl std::ops::Sub<Duration> for Epoch {
    type Output = Epoch;

    fn sub(self, length: Duration) -> (r: Epoch) {
        Epoch(clamp(self.0 as i128 - whole_seconds(length) as i128))
    }
}

impl vstd::std_specs::ops::SubSpecImpl<Duration> for Epoch {
    open spec fn obeys_sub_spec() -> bool {
        true
    }

    open spec fn sub_req(self, length: Duration) -> bool {
        true
    }

    open spec fn sub_spec(self, length: Duration) -> Epoch {
        Epoch(clamped(self.0 - spec_whole_seconds(length)))
    }
}

/// A moment minus a moment is a signed number of seconds.
impl std::ops::Sub<Epoch> for Epoch {
    type Output = i64;

    fn sub(self, earlier: Epoch) -> (r: i64) {
        clamp(self.0 as i128 - earlier.0 as i128)
    }
}

impl vstd::std_specs::ops::SubSpecImpl<Epoch> for Epoch {
    open spec fn obeys_sub_spec() -> bool {
        true
    }

    open spec fn sub_req(self, earlier: Epoch) -> bool {
        true
    }

    open spec fn sub_spec(self, earlier: Epoch) -> i64 {
        clamped(self.0 - earlier.0)
    }
}

impl std::ops::Add<Duration> for EpochMs {
    type Output = EpochMs;

    fn add(self, length: Duration) -> (r: EpochMs) {
        EpochMs(clamp(self.0 as i128 + whole_milliseconds(length) as i128))
    }
}

impl vstd::std_specs::ops::AddSpecImpl<Duration> for EpochMs {
    open spec fn obeys_add_spec() -> bool {
        true
    }

    open spec fn add_req(self, length: Duration) -> bool {
        true
    }

    open spec fn add_spec(self, length: Duration) -> EpochMs {
        EpochMs(clamped(self.0 + spec_whole_milliseconds(length)))
    }
}

impl std::ops::Sub<Duration> for EpochMs {
    type Output = EpochMs;

    fn sub(self, length: Duration) -> (r: EpochMs) {
        EpochMs(clamp(self.0 as i128 - whole_milliseconds(length) as i128))
    }
}

impl vstd::std_specs::ops::SubSpecImpl<Duration> for EpochMs {
    open spec fn obeys_sub_spec() -> bool {
        true
    }

    open spec fn sub_req(self, length: Duration) -> bool {
        true
    }

    open spec fn sub_spec(self, length: Duration) -> EpochMs {
        EpochMs(clamped(self.0 - spec_whole_milliseconds(length)))
    }
}

/// Signed milliseconds.
impl std::ops::Sub<EpochMs> for EpochMs {
    type Output = i64;

    fn sub(self, earlier: EpochMs) -> (r: i64) {
        clamp(self.0 as i128 - earlier.0 as i128)
    }
}

impl vstd::std_specs::ops::SubSpecImpl<EpochMs> for EpochMs {
    open spec fn obeys_sub_spec() -> bool {
        true
    }

    open spec fn sub_req(self, earlier: EpochMs) -> bool {
        true
    }

    open spec fn sub_spec(self, earlier: EpochMs) -> i64 {
        clamped(self.0 - earlier.0)
    }
}

/// The current moment in seconds, from `chrono::Utc::now`. The clock decides
/// what it is: all that holds of every answer is that it is a second `chrono` can
/// name.
#[verifier::external_body]
pub fn now() -> (r: Epoch)
    ensures
        in_range(r.0 as int),
{
    Epoch(chrono::Utc::now().timestamp())
}

/// The current moment in milliseconds, from `chrono::Utc::now`. The clock decides
/// what it is: all that holds of every answer is that it falls in a second
/// `chrono` can name.
#[verifier::external_body]
pub fn now_ms() -> (r: EpochMs)
    ensures
        in_range(r.in_seconds().0 as int),
{
    EpochMs(chrono::Utc::now().timestamp_millis())
}

/// A moment in seconds comes back from the rate-control unit as it went in, as
/// long as that unit can name it.
pub proof fn a_moment_survives_the_rate_control_unit(at: Epoch)
    requires
        i64::MIN <= at.0 * 1_000 <= i64::MAX,
    ensures
        at.in_ms().in_seconds() == at,
{
}

/// A moment in milliseconds falls in the second it is converted to.
pub proof fn a_moment_falls_in_its_second(at: EpochMs)
    ensures
        at.in_seconds().0 * 1_000 <= at.0 < at.in_seconds().0 * 1_000 + 1_000,
{
}

/// A moment and a length make the moment that many whole seconds later or earlier, and the
/// two moments are that far apart; or the last moment there is on the way.
pub proof fn lengths_are_added_and_taken_away(at: Epoch, length: Duration)
    requires
        duration_secs(length) <= i64::MAX,
    ensures
        ({
            let later = <Epoch as vstd::std_specs::ops::AddSpec<Duration>>::add_spec(at, length);
            let sooner = <Epoch as vstd::std_specs::ops::SubSpec<Duration>>::sub_spec(at, length);
            &&& at.0 + duration_secs(length) <= i64::MAX ==> later.0 == at.0 + duration_secs(length)
            &&& at.0 + duration_secs(length) > i64::MAX ==> later.0 == i64::MAX
            &&& at.0 - duration_secs(length) >= i64::MIN ==> sooner.0 == at.0 - duration_secs(
                length,
            )
            &&& at.0 - duration_secs(length) < i64::MIN ==> sooner.0 == i64::MIN
        }),
{
}

/// A moment some seconds later is that many seconds later, or the last there is.
pub proof fn a_moment_later(at: Epoch, seconds: int)
    requires
        seconds >= 0,
    ensures
        at.0 + seconds <= i64::MAX ==> at.later(seconds).0 == at.0 + seconds,
        at.0 + seconds > i64::MAX ==> at.later(seconds).0 == i64::MAX,
        at.0 * 1_000 <= i64::MAX && at.0 * 1_000 >= i64::MIN ==> at.in_ms().0 == at.0 * 1_000,
{
}

/// The same of moments and lengths in milliseconds.
pub proof fn lengths_are_added_and_taken_away_in_milliseconds(at: EpochMs, length: Duration)
    requires
        duration_nanos(length) / 1_000_000 <= i64::MAX,
    ensures
        ({
            let span = duration_nanos(length) / 1_000_000;
            let later = <EpochMs as vstd::std_specs::ops::AddSpec<Duration>>::add_spec(at, length);
            let sooner = <EpochMs as vstd::std_specs::ops::SubSpec<Duration>>::sub_spec(at, length);
            &&& at.0 + span <= i64::MAX ==> later.0 == at.0 + span
            &&& at.0 + span > i64::MAX ==> later.0 == i64::MAX
            &&& at.0 - span >= i64::MIN ==> sooner.0 == at.0 - span
            &&& at.0 - span < i64::MIN ==> sooner.0 == i64::MIN
        }),
{
}

/// Two moments are as far apart as their numbers, where that can be told.
pub proof fn moments_are_as_far_apart_as_their_numbers(
    a: Epoch,
    b: Epoch,
    x: EpochMs,
    y: EpochMs,
)
    ensures
        i64::MIN <= a.0 - b.0 <= i64::MAX ==> <Epoch as vstd::std_specs::ops::SubSpec<
            Epoch,
        >>::sub_spec(a, b) == a.0 - b.0,
        i64::MIN <= x.0 - y.0 <= i64::MAX ==> <EpochMs as vstd::std_specs::ops::SubSpec<
            EpochMs,
        >>::sub_spec(x, y) == x.0 - y.0,
{
}

} // verus!
