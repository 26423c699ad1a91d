//! The temporal diff: what changed in a list between two captures.
//!
//! `gained` and `lost` are a difference between two moments of the same list,
//! not between two lists.
use vstd::prelude::*;

use crate::clock::Epoch;
use crate::model::User;
use crate::sets::{self, lists, missing_from};
use crate::Pk;

verus! {

/// What changed in one list between two captures.
#[derive(Debug, PartialEq, Eq)]
pub struct ListDiff {
    /// In the later capture and not the earlier one.
    pub gained: Vec<User>,
    /// In the earlier capture and not the later one.
    pub lost: Vec<User>,
}

impl Default for ListDiff {
    fn default() -> (r: ListDiff)
        ensures
            r.gained@.len() == 0,
            r.lost@.len() == 0,
    {
        ListDiff { gained: Vec::new(), lost: Vec::new() }
    }
}

/// A copy of a list of accounts.
pub fn copy_users(users: &Vec<User>) -> (r: Vec<User>)
    ensures
        r@ == users@,
{
    let mut r: Vec<User> = Vec::new();
    let mut i: usize = 0;
    while i < users.len()
        invariant
            i <= users@.len(),
            r@ == users@.take(i as int),
        decreases users@.len() - i,
    {
        r.push(users[i].clone());
        i = i + 1;
        assert(r@ == users@.take(i as int));
    }
    assert(users@.take(users@.len() as int) == users@);
    r
}

impl Clone for ListDiff {
    fn clone(&self) -> (r: ListDiff)
        ensures
            r.gained@ == self.gained@,
            r.lost@ == self.lost@,
    {
        ListDiff { gained: copy_users(&self.gained), lost: copy_users(&self.lost) }
    }
}

impl ListDiff {
    /// Crosses two captures of the same list, by id.
    pub fn between(before: &[User], after: &[User]) -> (r: ListDiff)
        ensures
            r.gained@ == missing_from(after@, before@),
            r.lost@ == missing_from(before@, after@),
    {
        ListDiff {
            gained: sets::difference(after, before),
            lost: sets::difference(before, after),
        }
    }

    pub fn is_empty(&self) -> (r: bool)
        ensures
            r == (self.gained@.len() == 0 && self.lost@.len() == 0),
    {
        self.gained.is_empty() && self.lost.is_empty()
    }

    /// How many changes this is.
    pub fn len(&self) -> (r: usize)
        requires
            self.gained@.len() + self.lost@.len() <= usize::MAX,
        ensures
            r == self.gained@.len() + self.lost@.len(),
    {
        self.gained.len() + self.lost.len()
    }
}

/// An account that now goes by a different name.
#[derive(Debug, PartialEq, Eq)]
pub struct Rename {
    pub pk: Pk,
    /// The row of the name history this came from.
    pub history_id: i64,
    /// What they used to be called.
    pub from: String,
    /// What they are called now.
    pub to: String,
    /// When the change was noticed, not when it happened.
    pub at: Epoch,
}

impl Clone for Rename {
    fn clone(&self) -> (r: Rename)
        ensures
            r == *self,
    {
        Rename {
            pk: self.pk,
            history_id: self.history_id,
            from: self.from.clone(),
            to: self.to.clone(),
            at: self.at,
        }
    }
}

/// Which two captures a comparison may be made from, if any.
#[derive(Debug, Clone, Copy, PartialEq, Eq, Structural)]
pub enum Basis {
    /// Something is stored but nothing has ever been reported for this list.
    Baseline { snapshot_id: i64 },
    /// The mark already points at the newest usable capture.
    Unchanged { snapshot_id: i64 },
    /// Two different captures, in this order.
    Compare { before: i64, after: i64 },
}

impl Basis {
    /// What can be compared, given the capture last reported and the newest
    /// usable one.
    pub open spec fn decided(mark: Option<i64>, latest: Option<i64>) -> Option<Basis> {
        match (mark, latest) {
            (_, None) => None,
            (None, Some(latest)) => Some(Basis::Baseline { snapshot_id: latest }),
            (Some(mark), Some(latest)) => if mark >= latest {
                Some(Basis::Unchanged { snapshot_id: mark })
            } else {
                Some(Basis::Compare { before: mark, after: latest })
            },
        }
    }

    /// Works out what can be compared. A capture older than the one already
    /// reported is not compared backwards.
    pub fn decide(mark: Option<i64>, latest: Option<i64>) -> (r: Option<Basis>)
        ensures
            r == Basis::decided(mark, latest),
    {
        match latest {
            None => None,
            Some(latest) => match mark {
                None => Some(Basis::Baseline { snapshot_id: latest }),
                Some(mark) => {
                    if mark >= latest {
                        Some(Basis::Unchanged { snapshot_id: mark })
                    } else {
                        Some(Basis::Compare { before: mark, after: latest })
                    }
                },
            },
        }
    }

    /// The capture the mark should point at once a run is over.
    pub open spec fn marks(self) -> i64 {
        match self {
            Basis::Baseline { snapshot_id } => snapshot_id,
            Basis::Unchanged { snapshot_id } => snapshot_id,
            Basis::Compare { before, after } => after,
        }
    }

    pub fn mark_to(self) -> (r: i64)
        ensures
            r == self.marks(),
    {
        match self {
            Basis::Baseline { snapshot_id } => snapshot_id,
            Basis::Unchanged { snapshot_id } => snapshot_id,
            Basis::Compare { before, after } => after,
        }
    }
}

/// A mark never goes back, and after a run it is at the newest capture or past
/// it.
pub proof fn a_mark_never_goes_back(mark: Option<i64>, latest: i64)
    ensures
        Basis::decided(mark, Some(latest)) is Some,
        Basis::decided(mark, Some(latest))->0.marks() >= latest,
        mark matches Some(mark) ==> Basis::decided(Some(mark), Some(latest))->0.marks() >= mark,
{
}

/// Once a run has moved the mark, a run that finds nothing newer has nothing to
/// compare and leaves the mark where it is.
pub proof fn a_second_run_finds_nothing_new(mark: Option<i64>, latest: i64)
    ensures
        ({
            let marked = Basis::decided(mark, Some(latest))->0.marks();
            Basis::decided(Some(marked), Some(latest)) == Some(
                Basis::Unchanged { snapshot_id: marked },
            )
        }),
{
}

/// A comparison goes from the older capture to the newer one.
pub proof fn captures_are_compared_in_order(mark: Option<i64>, latest: Option<i64>)
    ensures
        Basis::decided(mark, latest) matches Some(Basis::Compare { before, after }) ==> before
            < after && mark == Some(before) && latest == Some(after),
{
}

/// Nobody both arrives and leaves, and who is in both captures does neither:
/// somebody who renamed themselves is in both.
pub proof fn nobody_arrives_and_leaves(before: Seq<User>, after: Seq<User>, pk: Pk)
    ensures
        !(lists(missing_from(after, before), pk) && lists(missing_from(before, after), pk)),
        lists(before, pk) && lists(after, pk) ==> !lists(missing_from(after, before), pk) && !lists(
            missing_from(before, after),
            pk,
        ),
        lists(after, pk) && !lists(before, pk) ==> lists(missing_from(after, before), pk),
        lists(before, pk) && !lists(after, pk) ==> lists(missing_from(before, after), pk),
{
    sets::a_list_splits_in_two(after, before);
    sets::a_list_splits_in_two(before, after);
}

/// Two captures of the same accounts leave nothing to report.
pub proof fn the_same_accounts_leave_nothing_to_report(before: Seq<User>, after: Seq<User>)
    requires
        forall|pk: Pk| #[trigger] lists(before, pk) <==> lists(after, pk),
    ensures
        missing_from(after, before).len() == 0,
        missing_from(before, after).len() == 0,
{
    sets::a_list_splits_in_two(after, before);
    sets::a_list_splits_in_two(before, after);
    let (gained, lost) = (missing_from(after, before), missing_from(before, after));
    if gained.len() > 0 {
        assert(gained[0].pk == gained[0].pk);
        assert(lists(gained, gained[0].pk));
        assert(lists(after, gained[0].pk));
        assert(lists(before, gained[0].pk));
    }
    if lost.len() > 0 {
        assert(lost[0].pk == lost[0].pk);
        assert(lists(lost, lost[0].pk));
        assert(lists(before, lost[0].pk));
    }
}

/// Nothing can be compared before there is a capture. The first one is where the reports
/// start from, a newer one than was reported is compared with that, and anything else
/// leaves things as they are.
pub proof fn what_a_run_can_compare(mark: i64, latest: i64)
    ensures
        Basis::decided(None, None) is None,
        Basis::decided(Some(mark), None) is None,
        Basis::decided(None, Some(latest)) == Some(Basis::Baseline { snapshot_id: latest }),
        latest > mark ==> Basis::decided(Some(mark), Some(latest)) == Some(
            Basis::Compare { before: mark, after: latest },
        ),
        latest <= mark ==> Basis::decided(Some(mark), Some(latest)) == Some(
            Basis::Unchanged { snapshot_id: mark },
        ),
        (Basis::Baseline { snapshot_id: latest }).marks() == latest,
        (Basis::Unchanged { snapshot_id: mark }).marks() == mark,
        (Basis::Compare { before: mark, after: latest }).marks() == latest,
{
}

} // verus!
