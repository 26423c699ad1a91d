//! What a run came to, and the one place its tokens are spelled.
use vstd::prelude::*;
use vstd::string::*;

use crate::text::same_text;

verus! {

/// What one run of the monitor came to.
#[derive(Debug, Clone, Copy, PartialEq, Eq, Structural)]
pub enum RunOutcome {
    /// Stored as `ok`.
    Success,
    Error,
    /// No session stored, or the one there no longer works.
    NoSession,
    /// The account has to be verified.
    Challenge,
    /// The far end is throttling requests.
    RateLimited,
    /// The user interrupted the run.
    Interrupted,
}

impl RunOutcome {
    /// Every outcome.
    pub const ALL: [RunOutcome; 6] = [
        RunOutcome::Success,
        RunOutcome::Error,
        RunOutcome::NoSession,
        RunOutcome::Challenge,
        RunOutcome::RateLimited,
        RunOutcome::Interrupted,
    ];

    /// The stable token for this outcome.
    pub open spec fn token(self) -> Seq<char> {
        match self {
            RunOutcome::Success => "ok"@,
            RunOutcome::Error => "error"@,
            RunOutcome::NoSession => "no_session"@,
            RunOutcome::Challenge => "challenge"@,
            RunOutcome::RateLimited => "rate_limited"@,
            RunOutcome::Interrupted => "interrupted"@,
        }
    }

    pub fn as_str(self) -> (r: &'static str)
        ensures
            r@ == self.token(),
    {
        match self {
            RunOutcome::Success => "ok",
            RunOutcome::Error => "error",
            RunOutcome::NoSession => "no_session",
            RunOutcome::Challenge => "challenge",
            RunOutcome::RateLimited => "rate_limited",
            RunOutcome::Interrupted => "interrupted",
        }
    }

    pub fn to_string(&self) -> (r: String)
        ensures
            r@ == self.token(),
    {
        self.as_str().to_owned()
    }

    /// The outcome a stored token names, or `None` for a token this build does
    /// not write.
    pub fn from_token(token: &str) -> (r: Option<RunOutcome>)
        ensures
            match r {
                Some(outcome) => token@ == outcome.token(),
                None => forall|outcome: RunOutcome| token@ != #[trigger] outcome.token(),
            },
            forall|outcome: RunOutcome|
                token@ == #[trigger] outcome.token() ==> r == Some(outcome),
    {
        let r = if same_text(token, "ok") {
            Some(RunOutcome::Success)
        } else if same_text(token, "error") {
            Some(RunOutcome::Error)
        } else if same_text(token, "no_session") {
            Some(RunOutcome::NoSession)
        } else if same_text(token, "challenge") {
            Some(RunOutcome::Challenge)
        } else if same_text(token, "rate_limited") {
            Some(RunOutcome::RateLimited)
        } else if same_text(token, "interrupted") {
            Some(RunOutcome::Interrupted)
        } else {
            None
        };
        proof {
            assert forall|outcome: RunOutcome|
                token@ == #[trigger] outcome.token() implies r == Some(outcome) by {
                if let Some(found) = r {
                    every_outcome_has_a_token_of_its_own(found, outcome);
                }
            }
        }
        r
    }
}

/// An outcome as a stored row carries it: one this build knows, or the token
/// whatever wrote the row used.
#[derive(Debug, Clone, PartialEq, Eq)]
pub enum RecordedOutcome {
    Known(RunOutcome),
    Unknown(String),
}

impl RecordedOutcome {
    /// The token, whichever half this is.
    pub open spec fn token(self) -> Seq<char> {
        match self {
            RecordedOutcome::Known(outcome) => outcome.token(),
            RecordedOutcome::Unknown(token) => token@,
        }
    }

    /// Reads a stored token.
    pub fn from_token(token: &str) -> (r: RecordedOutcome)
        ensures
            r.token() == token@,
            forall|outcome: RunOutcome|
                token@ == #[trigger] outcome.token() ==> r == RecordedOutcome::Known(outcome),
            r is Unknown <==> forall|outcome: RunOutcome| token@ != #[trigger] outcome.token(),
    {
        match RunOutcome::from_token(token) {
            Some(outcome) => RecordedOutcome::Known(outcome),
            None => RecordedOutcome::Unknown(token.to_owned()),
        }
    }

    pub fn as_str(&self) -> (r: &str)
        ensures
            r@ == self.token(),
    {
        match self {
            RecordedOutcome::Known(outcome) => outcome.as_str(),
            RecordedOutcome::Unknown(token) => token.as_str(),
        }
    }

    pub fn to_string(&self) -> (r: String)
        ensures
            r@ == self.token(),
    {
        self.as_str().to_owned()
    }

    /// The outcome this build understands, or `None` for a token it does not.
    pub fn known(&self) -> (r: Option<RunOutcome>)
        ensures
            r == match self {
                RecordedOutcome::Known(outcome) => Some(*outcome),
                RecordedOutcome::Unknown(_) => None,
            },
    {
        match self {
            RecordedOutcome::Known(outcome) => Some(*outcome),
            RecordedOutcome::Unknown(_) => None,
        }
    }
}

impl PartialEq<RunOutcome> for RecordedOutcome {
    fn eq(&self, outcome: &RunOutcome) -> (r: bool) {
        match self {
            RecordedOutcome::Known(known) => *known == *outcome,
            RecordedOutcome::Unknown(_) => false,
        }
    }
}

impl vstd::std_specs::cmp::PartialEqSpecImpl<RunOutcome> for RecordedOutcome {
    open spec fn obeys_eq_spec() -> bool {
        true
    }

    open spec fn eq_spec(&self, outcome: &RunOutcome) -> bool {
        *self == RecordedOutcome::Known(*outcome)
    }
}

impl From<RunOutcome> for RecordedOutcome {
    fn from(outcome: RunOutcome) -> (r: RecordedOutcome) {
        RecordedOutcome::Known(outcome)
    }
}

impl vstd::std_specs::convert::FromSpecImpl<RunOutcome> for RecordedOutcome {
    open spec fn obeys_from_spec() -> bool {
        true
    }

    open spec fn from_spec(outcome: RunOutcome) -> RecordedOutcome {
        RecordedOutcome::Known(outcome)
    }
}

/// No two outcomes are spelled the same.
pub proof fn every_outcome_has_a_token_of_its_own(a: RunOutcome, b: RunOutcome)
    ensures
        a.token() == b.token() <==> a == b,
{
    reveal_strlit("ok");
    reveal_strlit("error");
    reveal_strlit("no_session");
    reveal_strlit("challenge");
    reveal_strlit("rate_limited");
    reveal_strlit("interrupted");
    assert("ok"@.len() == 2 && "error"@.len() == 5 && "no_session"@.len() == 10);
    assert("challenge"@.len() == 9 && "rate_limited"@.len() == 12 && "interrupted"@.len() == 11);
}

} // verus!
