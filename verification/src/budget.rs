//! The request budget, as an interface, and the policy that goes with it.
use std::time::Duration;
use vstd::prelude::*;

use crate::clock::{clamped, duration_nanos, EpochMs};

verus! {

/// Accounts a day read off follower and following lists.
pub const ACCOUNTS_PER_DAY: u32 = 2_000;

/// The same after the far end has pushed back on this account recently.
pub const ACCOUNTS_PER_DAY_AFTER_PUSH_BACK: u32 = 1_000;

/// How long a push-back keeps the lower ceiling in force, in milliseconds.
pub const PUSH_BACK_MEMORY_MS: i64 = 604_800_000;

/// How long to wait before firing a request.
pub trait RateBudget: Send + Sync {
    /// Reserves a request and returns how long to wait before sending it.
    fn reserve(&self) -> Result<Duration, RateBudgetError>;

    /// Reserves a write and returns how long to wait before sending it.
    fn reserve_write(&self) -> Result<Duration, RateBudgetError>;

    /// Until when the account is in cooldown.
    fn cooldown(&self) -> Result<Option<EpochMs>, RateBudgetError>;

    /// Puts the account in cooldown and returns until when.
    fn start_cooldown(&self, reason: &str, minimum: Duration) -> Result<EpochMs, RateBudgetError>;

    /// How long until so many more accounts may be read today. A budget that
    /// says nothing about it grants everything.
    fn accounts_wait(&self, accounts: u32) -> (r: Result<Duration, RateBudgetError>)
        default_ensures
            r is Ok && duration_nanos(r->Ok_0) == 0,
    {
        Ok(Duration::from_secs(0))
    }

    /// Records that so many accounts were read off a list.
    fn spend_accounts(&self, accounts: u32) -> (r: Result<(), RateBudgetError>)
        default_ensures
            r is Ok,
    {
        Ok(())
    }

    /// How many accounts may still be read today without waiting.
    fn accounts_left(&self) -> (r: Result<u32, RateBudgetError>)
        default_ensures
            r == Ok::<u32, RateBudgetError>(u32::MAX),
    {
        Ok(u32::MAX)
    }
}

/// What a budget that could not answer says.
#[derive(Debug)]
pub struct RateBudgetError(pub String);

impl RateBudgetError {
    pub fn to_string(&self) -> (text: String)
        ensures
            text@ == self.0@,
    {
        self.0.clone()
    }
}

/// Whether a push-back at one moment still counts at another.
pub open spec fn remembered(at: EpochMs, now: EpochMs) -> bool {
    clamped(now.0 - at.0) < PUSH_BACK_MEMORY_MS
}

/// The daily ceiling on accounts read, given when the last cooldown began.
pub fn accounts_per_day(last_push_back: Option<EpochMs>, now: EpochMs) -> (r: u32)
    ensures
        r == match last_push_back {
            Some(at) if remembered(at, now) => ACCOUNTS_PER_DAY_AFTER_PUSH_BACK,
            _ => ACCOUNTS_PER_DAY,
        },
{
    match last_push_back {
        Some(at) => {
            if now - at < PUSH_BACK_MEMORY_MS {
                ACCOUNTS_PER_DAY_AFTER_PUSH_BACK
            } else {
                ACCOUNTS_PER_DAY
            }
        },
        None => ACCOUNTS_PER_DAY,
    }
}

/// How long a throttled account is left alone: two hours.
pub fn rate_limit_cooldown() -> (r: Duration)
    ensures
        duration_nanos(r) == 2 * 3_600 * 1_000_000_000,
{
    Duration::from_secs(2 * 3_600)
}

/// How long a blocked account is left alone: twelve hours.
pub fn action_block_cooldown() -> (r: Duration)
    ensures
        duration_nanos(r) == 12 * 3_600 * 1_000_000_000,
{
    Duration::from_secs(12 * 3_600)
}

/// How long an account asked to verify itself is left alone: half an hour.
///
/// Much shorter than the other two, because it is the only one waiting does
/// not fix.
pub fn challenge_cooldown() -> (r: Duration)
    ensures
        duration_nanos(r) == 30 * 60 * 1_000_000_000,
{
    Duration::from_secs(30 * 60)
}

/// Grants everything and counts nothing.
pub struct UnlimitedRateBudget;

impl RateBudget for UnlimitedRateBudget {
    fn reserve(&self) -> (r: Result<Duration, RateBudgetError>)
        ensures
            r is Ok && duration_nanos(r->Ok_0) == 0,
    {
        Ok(Duration::from_secs(0))
    }

    fn reserve_write(&self) -> (r: Result<Duration, RateBudgetError>)
        ensures
            r is Ok && duration_nanos(r->Ok_0) == 0,
    {
        Ok(Duration::from_secs(0))
    }

    fn cooldown(&self) -> (r: Result<Option<EpochMs>, RateBudgetError>)
        ensures
            r == Ok::<Option<EpochMs>, RateBudgetError>(None),
    {
        Ok(None)
    }

    fn start_cooldown(&self, reason: &str, minimum: Duration) -> (r: Result<
        EpochMs,
        RateBudgetError,
    >)
        ensures
            r == Ok::<EpochMs, RateBudgetError>(EpochMs(0)),
    {
        Ok(EpochMs(0))
    }
}

/// A push-back lowers the daily ceiling for seven days, to the millisecond.
pub proof fn a_push_back_counts_for_a_week(at: EpochMs, now: EpochMs)
    ensures
        remembered(at, now) <==> now.0 - at.0 < 7 * 86_400 * 1_000,
        ACCOUNTS_PER_DAY == 2_000,
        ACCOUNTS_PER_DAY_AFTER_PUSH_BACK == 1_000,
{
}

} // verus!
