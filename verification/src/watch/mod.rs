//! The monitor: what changed since the last time anybody looked.
use vstd::prelude::*;

pub mod config;
pub mod diff;
pub mod outcome;
pub mod schedule;
pub mod sign;

pub use diff::{Basis, ListDiff, Rename};
pub use schedule::{Due, Schedule, ScheduleError, Weekday};

use crate::model::ListKind;

verus! {

/// Everything one run found about one account.
#[derive(Debug, Clone, PartialEq, Eq)]
pub struct Changes {
    pub followers: ListDiff,
    pub following: ListDiff,
    /// Accounts in either list that now go by a different name.
    pub renamed: Vec<Rename>,
}

impl Default for Changes {
    fn default() -> (r: Changes)
        ensures
            r.count() == 0,
    {
        Changes {
            followers: ListDiff::default(),
            following: ListDiff::default(),
            renamed: Vec::new(),
        }
    }
}

impl Changes {
    /// How many individual changes this is.
    pub open spec fn count(self) -> nat {
        self.followers.gained@.len() + self.followers.lost@.len() + self.following.gained@.len()
            + self.following.lost@.len() + self.renamed@.len()
    }

    pub fn is_empty(&self) -> (r: bool)
        ensures
            r == (self.count() == 0),
    {
        self.followers.is_empty() && self.following.is_empty() && self.renamed.is_empty()
    }

    /// How many individual changes this is.
    pub fn len(&self) -> (r: usize)
        requires
            self.count() <= usize::MAX,
        ensures
            r == self.count(),
    {
        self.followers.len() + self.following.len() + self.renamed.len()
    }

    pub fn of(&self, kind: ListKind) -> (r: &ListDiff)
        ensures
            *r == match kind {
                ListKind::Followers => self.followers,
                ListKind::Following => self.following,
            },
    {
        match kind {
            ListKind::Followers => &self.followers,
            ListKind::Following => &self.following,
        }
    }
}

/// Changes are counted one by one, whichever they are: whoever came or went on either list, and
/// whoever was renamed. There are none exactly when there is none of any.
pub proof fn every_change_counts(changes: Changes)
    ensures
        changes.count() == changes.followers.gained@.len() + changes.followers.lost@.len()
            + changes.following.gained@.len() + changes.following.lost@.len()
            + changes.renamed@.len(),
        changes.count() == 0 <==> changes.followers.gained@.len() == 0
            && changes.followers.lost@.len() == 0 && changes.following.gained@.len() == 0
            && changes.following.lost@.len() == 0 && changes.renamed@.len() == 0,
{
}

} // verus!
