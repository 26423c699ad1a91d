//! The monitor's own tables: what has been reported, and what each run did.
//!
//! A capture records that a list was walked; a receipt records that a walk was
//! reported. The whole correctness of the diff rests on reading the receipt
//! rather than guessing at it from the captures.
use std::collections::HashSet;
use vstd::prelude::*;
use vstd::string::*;

use crate::clock::Epoch;
use crate::model::{copy_text, ListKind};
use crate::session::text_in;
use crate::store::deliveries::{
    enqueue, facts, has_run, newest_report, reports_are_sound, with_report, DeliveryFacts,
    DeliveryRow, DeliveryState, MAX_AGE_SECS,
};
use crate::store::snapshots::{
    capture, cascaded, delete_snapshots, has_capture, is_among, is_as_recent, is_member, is_older,
    lemma_filter_order, lemma_one_more_id, lemma_removed, lemma_same_filter, str_in, MemberRow, SnapshotRow,
};
use crate::store::users::{
    find_newest_entry, locate, newest_entry, user_row, HistoryRow, UserRow,
};
use crate::store::{pk_to_sql, sql_number, Store, StoreError};
use crate::text::same_text;
use crate::watch::Rename;
use crate::Pk;

verus! {

/// The receipt for one account and list: what was reported, and when.
#[derive(Debug, Clone, Copy, PartialEq, Eq, Structural)]
pub struct Mark {
    /// The capture that was reported against. `None` once it has been pruned,
    /// which means the baseline is gone and the next run has to lay a new one.
    pub snapshot_id: Option<i64>,
    /// When the report was made.
    pub compared_at: i64,
}

/// One receipt, with what it is a receipt for.
#[derive(Debug, Clone, Copy, PartialEq, Eq, Structural)]
pub struct AccountMark {
    pub account_pk: Pk,
    pub kind: ListKind,
    pub snapshot_id: Option<i64>,
    pub compared_at: i64,
}

impl AccountMark {
    /// Whether it is the receipt for this list.
    pub open spec fn is_for(self, account: Pk, kind: ListKind) -> bool {
        self.account_pk == account && self.kind == kind
    }
}

/// How far along the rename history an account has been reported.
#[derive(Debug, Clone, Copy, PartialEq, Eq, Structural)]
pub struct RenameCursor {
    pub account_pk: Pk,
    pub cursor: i64,
    pub marked_at: i64,
}

/// A rename that went out in a report.
#[derive(Debug, Clone, Copy, PartialEq, Eq, Structural)]
pub struct SentRename {
    pub account_pk: Pk,
    pub history_id: i64,
    pub sent_at: i64,
}

/// What one run of the monitor did.
#[derive(Debug, PartialEq, Eq)]
pub struct Run {
    pub account_pk: Pk,
    pub started_at: i64,
    pub finished_at: Option<i64>,
    pub requests: u32,
    /// How it ended, by the same name wherever it is read.
    pub outcome: Option<String>,
    pub changes: u32,
}

impl Clone for Run {
    fn clone(&self) -> (r: Run)
        ensures
            r == *self,
    {
        Run {
            account_pk: self.account_pk,
            started_at: self.started_at,
            finished_at: self.finished_at,
            requests: self.requests,
            outcome: copy_text(&self.outcome),
            changes: self.changes,
        }
    }
}

/// A run as it is stored.
#[derive(Debug, PartialEq, Eq)]
pub struct RunRow {
    pub id: i64,
    pub run: Run,
}

/// Whether each list has one receipt, and each receipt is for a capture that is
/// there, or for none.
pub open spec fn marks_are_sound(marks: Seq<AccountMark>, rows: Seq<SnapshotRow>) -> bool {
    &&& forall|i: int, j: int|
        #![trigger marks[i], marks[j]]
        0 <= i < j < marks.len() ==> !(marks[i].account_pk == marks[j].account_pk && marks[i].kind
            == marks[j].kind)
    &&& forall|i: int|
        0 <= i < marks.len() ==> ((#[trigger] marks[i]).snapshot_id matches Some(id)
            ==> has_capture(rows, id))
}

/// Whether each account has one cursor.
pub open spec fn cursors_are_sound(cursors: Seq<RenameCursor>) -> bool {
    forall|i: int, j: int|
        0 <= i < j < cursors.len() ==> (#[trigger] cursors[i]).account_pk != (
        #[trigger] cursors[j]).account_pk
}

/// Whether no rename is filed as sent twice for one account.
pub open spec fn sent_is_sound(sent: Seq<SentRename>) -> bool {
    forall|i: int, j: int|
        #![trigger sent[i], sent[j]]
        0 <= i < j < sent.len() ==> !(sent[i].account_pk == sent[j].account_pk
            && sent[i].history_id == sent[j].history_id)
}

/// Whether the ids are positive and grow as runs are recorded.
pub open spec fn runs_are_sound(runs: Seq<RunRow>) -> bool {
    &&& forall|i: int| 0 <= i < runs.len() ==> (#[trigger] runs[i]).id >= 1
    &&& forall|i: int, j: int|
        0 <= i < j < runs.len() ==> (#[trigger] runs[i]).id < (#[trigger] runs[j]).id
}

/// Whether a list has a receipt.
pub open spec fn has_mark(marks: Seq<AccountMark>, account: Pk, kind: ListKind) -> bool {
    exists|i: int| 0 <= i < marks.len() && (#[trigger] marks[i]).is_for(account, kind)
}

/// The receipt for a list.
pub open spec fn mark_of(marks: Seq<AccountMark>, account: Pk, kind: ListKind) -> Option<
    AccountMark,
>
    decreases marks.len(),
{
    if marks.len() == 0 {
        None
    } else if marks.first().is_for(account, kind) {
        Some(marks.first())
    } else {
        mark_of(marks.drop_first(), account, kind)
    }
}

fn locate_mark(marks: &Vec<AccountMark>, account_pk: Pk, kind: ListKind) -> (r: Option<usize>)
    ensures
        match r {
            Some(i) => i < marks@.len() && marks@[i as int].is_for(account_pk, kind) && mark_of(
                marks@,
                account_pk,
                kind,
            ) == Some(marks@[i as int]),
            None => mark_of(marks@, account_pk, kind) is None && !has_mark(marks@, account_pk, kind),
        },
{
    let mut i: usize = 0;
    assert(marks@.skip(0) == marks@);
    while i < marks.len()
        invariant
            i <= marks@.len(),
            mark_of(marks@, account_pk, kind) == mark_of(marks@.skip(i as int), account_pk, kind),
            forall|j: int| 0 <= j < i ==> !(#[trigger] marks@[j]).is_for(account_pk, kind),
        decreases marks@.len() - i,
    {
        assert(marks@.skip(i as int).drop_first() == marks@.skip(i + 1));
        if marks[i].account_pk == account_pk && marks[i].kind == kind {
            return Some(i);
        }
        i = i + 1;
    }
    None
}

/// The receipt for this account and list, if there is one.
pub fn mark(store: &Store, account_pk: Pk, kind: ListKind) -> (r: Option<Mark>)
    ensures
        r == match mark_of(store.marks@, account_pk, kind) {
            Some(mark) => Some(
                Mark { snapshot_id: mark.snapshot_id, compared_at: mark.compared_at },
            ),
            None => None,
        },
{
    match locate_mark(&store.marks, account_pk, kind) {
        Some(i) => {
            let mark = store.marks[i];
            Some(Mark { snapshot_id: mark.snapshot_id, compared_at: mark.compared_at })
        },
        None => None,
    }
}

/// How long a capture is kept once nothing needs it.
pub const KEEP_FOR_SECS: i64 = 2_592_000;

/// How long settled deliveries are kept.
pub const KEEP_DELIVERIES_FOR_SECS: i64 = 604_800;

/// How long the run log is kept.
pub const KEEP_RUNS_FOR_SECS: i64 = 2_592_000;

/// Whether some receipt is for this capture.
pub open spec fn is_marked(marks: Seq<AccountMark>, id: i64) -> bool {
    exists|i: int| 0 <= i < marks.len() && (#[trigger] marks[i]).snapshot_id == Some(id)
}

fn marked(marks: &Vec<AccountMark>, id: i64) -> (r: bool)
    ensures
        r == is_marked(marks@, id),
{
    let mut i: usize = 0;
    while i < marks.len()
        invariant
            i <= marks@.len(),
            forall|j: int| 0 <= j < i ==> (#[trigger] marks@[j]).snapshot_id != Some(id),
        decreases marks@.len() - i,
    {
        if let Some(found) = marks[i].snapshot_id {
            if found == id {
                assert(marks@[i as int].snapshot_id == Some(id));
                return true;
            }
        }
        i = i + 1;
    }
    false
}

/// Whether no usable capture of its list is more recent.
pub open spec fn is_unsurpassed(rows: Seq<SnapshotRow>, row: SnapshotRow) -> bool {
    forall|j: int|
        0 <= j < rows.len() && (#[trigger] rows[j]).is_usable() && rows[j].is_of(
            row.account_pk,
            row.kind,
        ) ==> is_as_recent(row, rows[j])
}

fn unsurpassed(rows: &Vec<SnapshotRow>, i: usize) -> (r: bool)
    requires
        i < rows@.len(),
        rows@[i as int].taken_at is Some,
    ensures
        r == is_unsurpassed(rows@, rows@[i as int]),
{
    let row = &rows[i];
    let mut j: usize = 0;
    while j < rows.len()
        invariant
            j <= rows@.len(),
            i < rows@.len(),
            *row == rows@[i as int],
            row.taken_at is Some,
            forall|k: int|
                0 <= k < j && (#[trigger] rows@[k]).is_usable() && rows@[k].is_of(
                    row.account_pk,
                    row.kind,
                ) ==> is_as_recent(*row, rows@[k]),
        decreases rows@.len() - j,
    {
        let other = &rows[j];
        if other.complete && other.account_pk == row.account_pk && other.kind == row.kind {
            if let (Some(mine), Some(theirs)) = (row.taken_at, other.taken_at) {
                if !(mine > theirs || (mine == theirs && row.id >= other.id)) {
                    assert(rows@[j as int].is_usable() && rows@[j as int].is_of(
                        row.account_pk,
                        row.kind,
                    ));
                    return false;
                }
            }
        }
        j = j + 1;
    }
    true
}

/// Whether nothing needs a capture any more: finished, past its time, no
/// receipt's, and not the newest of its list.
pub open spec fn is_unneeded(
    rows: Seq<SnapshotRow>,
    marks: Seq<AccountMark>,
    row: SnapshotRow,
    now: i64,
) -> bool {
    &&& row.complete
    &&& row.taken_at matches Some(at) && at < now - KEEP_FOR_SECS
    &&& !is_marked(marks, row.id)
    &&& !is_unsurpassed(rows, row)
}

fn prune_captures(store: &mut Store, now: i64) -> (r: usize)
    requires
        old(store).is_sound(),
    ensures
        final(store).snapshots@ == old(store).snapshots@.filter(
            |row: SnapshotRow|
                !is_unneeded(old(store).snapshots@, old(store).marks@, row, now),
        ),
        r == old(store).snapshots@.len() - final(store).snapshots@.len(),
        cascaded(*old(store), *final(store)),
        *final(store) == (Store {
            snapshots: final(store).snapshots,
            members: final(store).members,
            marks: final(store).marks,
            ..*old(store)
        }),
        final(store).is_sound(),
{
    let mut ids: Vec<i64> = Vec::new();
    let mut i: usize = 0;
    let count: usize = store.snapshots.len();
    let ghost rows = store.snapshots@;
    let ghost marks = store.marks@;
    while i < store.snapshots.len()
        invariant
            *store == *old(store),
            store.is_sound(),
            rows == store.snapshots@,
            marks == store.marks@,
            i <= rows.len(),
            forall|j: int|
                0 <= j < i ==> (is_among(ids@, rows[j].id) <==> is_unneeded(
                    rows,
                    marks,
                    #[trigger] rows[j],
                    now,
                )),
            forall|k: int| 0 <= k < ids@.len() ==> is_older(rows, i as int, #[trigger] ids@[k]),
        decreases rows.len() - i,
    {
        let ghost before = ids@;
        if store.snapshots[i].complete {
            if let Some(at) = store.snapshots[i].taken_at {
                let id: i64 = store.snapshots[i].id;
                if (at as i128) < now as i128 - KEEP_FOR_SECS as i128 && !marked(&store.marks, id)
                    && !unsurpassed(&store.snapshots, i) {
                    ids.push(id);
                }
            }
        }
        proof {
            lemma_one_more_id(rows, before, ids@, i as int);
        }
        i = i + 1;
    }
    delete_snapshots(store, ids.as_slice());
    proof {
        let doomed = |row: SnapshotRow| is_unneeded(rows, marks, row, now);
        let kept = |row: SnapshotRow|
            !is_unneeded(old(store).snapshots@, old(store).marks@, row, now);
        lemma_removed(*old(store), *store, ids@, doomed);
        lemma_same_filter(rows, |row: SnapshotRow| !doomed(row), kept);
        rows.lemma_filter_len(kept);
    }
    count - store.snapshots.len()
}

/// What is said of a report nothing delivered in time, where nothing else was.
pub const TOO_OLD: &'static str = "it grew too old to be news";

/// A report after its age was looked at: one too old to be news stops being
/// owed.
pub open spec fn aged(row: DeliveryFacts, now: i64) -> DeliveryFacts {
    if row.state == DeliveryState::Pending && row.created_at < now - MAX_AGE_SECS {
        DeliveryFacts {
            state: DeliveryState::Expired,
            settled_at: Some(now),
            next_try_at: None,
            last_error: if row.last_error is Some {
                row.last_error
            } else {
                Some(TOO_OLD@)
            },
            ..row
        }
    } else {
        row
    }
}

/// Whether a settled report is only an old record.
pub open spec fn is_old_record(row: DeliveryFacts, now: i64) -> bool {
    &&& row.state != DeliveryState::Pending
    &&& row.settled_at matches Some(at) && at < now - KEEP_DELIVERIES_FOR_SECS
}

/// The reports after their age was looked at, and the old records removed.
pub open spec fn without_old_reports(rows: Seq<DeliveryFacts>, now: i64) -> Seq<DeliveryFacts> {
    rows.map_values(|row: DeliveryFacts| aged(row, now)).filter(
        |row: DeliveryFacts| !is_old_record(row, now),
    )
}

fn prune_deliveries(rows: &mut Vec<DeliveryRow>, now: i64)
    requires
        reports_are_sound(facts(old(rows)@)),
    ensures
        facts(final(rows)@) == without_old_reports(facts(old(rows)@), now),
        reports_are_sound(facts(final(rows)@)),
{
    let mut all: Vec<DeliveryRow> = Vec::new();
    std::mem::swap(&mut all, rows);
    let ghost before = all@;
    let ghost mid = facts(before).map_values(|row: DeliveryFacts| aged(row, now));
    let ghost kept = |row: DeliveryFacts| !is_old_record(row, now);
    assert(facts(rows@) == mid.take(0).filter(kept)) by {
        reveal(Seq::filter);
    }
    for row in it: all
        invariant
            it.seq() == before,
            mid == facts(before).map_values(|row: DeliveryFacts| aged(row, now)),
            kept == (|row: DeliveryFacts| !is_old_record(row, now)),
            facts(rows@) == mid.take(it.index() as int).filter(kept),
    {
        let mut row = row;
        let ghost as_it_was = row@;
        if matches!(row.state, DeliveryState::Pending) && (row.created_at as i128) < now as i128
            - MAX_AGE_SECS as i128 {
            row.state = DeliveryState::Expired;
            row.settled_at = Some(now);
            row.next_try_at = None;
            if row.last_error.is_none() {
                row.last_error = Some(TOO_OLD.to_owned());
            }
        }
        proof {
            reveal(Seq::filter);
            assert(mid.take(it.index() + 1).drop_last() == mid.take(it.index() as int));
            assert(row@ == aged(as_it_was, now));
            assert(mid[it.index() as int] == row@);
        }
        let old_record = match row.settled_at {
            Some(at) => !matches!(row.state, DeliveryState::Pending) && (at as i128) < now as i128
                - KEEP_DELIVERIES_FOR_SECS as i128,
            None => false,
        };
        let ghost so_far = facts(rows@);
        if !old_record {
            rows.push(row);
            assert(facts(rows@) =~= so_far.push(row@));
        }
    }
    proof {
        assert(mid.take(mid.len() as int) == mid);
        lemma_kept_reports_are_sound(facts(before), mid, kept);
    }
}

proof fn lemma_kept_reports_are_sound(
    before: Seq<DeliveryFacts>,
    mid: Seq<DeliveryFacts>,
    kept: spec_fn(DeliveryFacts) -> bool,
)
    requires
        reports_are_sound(before),
        mid.len() == before.len(),
        forall|i: int|
            0 <= i < mid.len() ==> (#[trigger] mid[i]).id == before[i].id && mid[i].run_id
                == before[i].run_id,
    ensures
        reports_are_sound(mid.filter(kept)),
{
    let all = mid.filter(kept);
    let places = lemma_filter_order(mid, kept);
    assert forall|i: int| 0 <= i < all.len() implies (#[trigger] all[i]).id >= 1 by {
        assert(all[i] == mid[places[i]]);
        assert(before[places[i]].id >= 1);
    }
    assert forall|i: int, j: int|
        #![trigger all[i], all[j]]
        0 <= i < j < all.len() implies all[i].id < all[j].id && all[i].run_id != all[j].run_id by {
        assert(all[i] == mid[places[i]] && all[j] == mid[places[j]]);
        assert(places[i] < places[j]);
        assert(before[places[i]].id < before[places[j]].id);
    }
}

/// Whether no run of its account started later, or in the same second and was
/// recorded later.
pub open spec fn is_last_run(runs: Seq<RunRow>, row: RunRow) -> bool {
    forall|j: int|
        0 <= j < runs.len() && (#[trigger] runs[j]).run.account_pk == row.run.account_pk
            ==> row.run.started_at > runs[j].run.started_at || (row.run.started_at
            == runs[j].run.started_at && row.id >= runs[j].id)
}

fn last_run(runs: &Vec<RunRow>, i: usize) -> (r: bool)
    requires
        i < runs@.len(),
    ensures
        r == is_last_run(runs@, runs@[i as int]),
{
    let row = &runs[i];
    let mut j: usize = 0;
    while j < runs.len()
        invariant
            i < runs@.len(),
            *row == runs@[i as int],
            j <= runs@.len(),
            forall|k: int|
                0 <= k < j && (#[trigger] runs@[k]).run.account_pk == row.run.account_pk
                    ==> row.run.started_at > runs@[k].run.started_at || (row.run.started_at
                    == runs@[k].run.started_at && row.id >= runs@[k].id),
        decreases runs@.len() - j,
    {
        let other = &runs[j];
        if other.run.account_pk == row.run.account_pk && !(row.run.started_at
            > other.run.started_at || (row.run.started_at == other.run.started_at && row.id
            >= other.id)) {
            assert(runs@[j as int].run.account_pk == row.run.account_pk);
            return false;
        }
        j = j + 1;
    }
    true
}

/// Whether a run is past its time and not the last of its account.
pub open spec fn is_old_run(runs: Seq<RunRow>, row: RunRow, now: i64) -> bool {
    row.run.started_at < now - KEEP_RUNS_FOR_SECS && !is_last_run(runs, row)
}

fn prune_runs(runs: &mut Vec<RunRow>, now: i64)
    requires
        runs_are_sound(old(runs)@),
    ensures
        final(runs)@ == old(runs)@.filter(|row: RunRow| !is_old_run(old(runs)@, row, now)),
        runs_are_sound(final(runs)@),
{
    let mut keep: Vec<bool> = Vec::new();
    let mut i: usize = 0;
    let ghost before = runs@;
    while i < runs.len()
        invariant
            runs@ == before,
            before == old(runs)@,
            i <= before.len(),
            keep@.len() == i,
            forall|j: int| 0 <= j < i ==> keep@[j] == !is_old_run(before, #[trigger] before[j], now),
        decreases before.len() - i,
    {
        let old_run = (runs[i].run.started_at as i128) < now as i128 - KEEP_RUNS_FOR_SECS as i128
            && !last_run(runs, i);
        keep.push(!old_run);
        i = i + 1;
    }
    let mut all: Vec<RunRow> = Vec::new();
    std::mem::swap(&mut all, runs);
    let ghost kept = |row: RunRow| !is_old_run(before, row, now);
    assert(runs@ == before.take(0).filter(kept)) by {
        reveal(Seq::filter);
    }
    let mut n: usize = 0;
    for row in it: all
        invariant
            it.seq() == before,
            before == old(runs)@,
            keep@.len() == before.len(),
            kept == (|row: RunRow| !is_old_run(before, row, now)),
            forall|j: int|
                0 <= j < before.len() ==> keep@[j] == !is_old_run(before, #[trigger] before[j], now),
            runs@ == before.take(it.index() as int).filter(kept),
            n == it.index(),
            n <= before.len(),
    {
        proof {
            reveal(Seq::filter);
            assert(before.take(it.index() + 1).drop_last() == before.take(it.index() as int));
            assert(before[it.index() as int] == row);
        }
        if keep[n] {
            runs.push(row);
        }
        n = n + 1;
    }
    assert(before.take(before.len() as int) == before);
    proof {
        lemma_kept_runs_are_sound(before, kept);
    }
}

proof fn lemma_kept_runs_are_sound(runs: Seq<RunRow>, kept: spec_fn(RunRow) -> bool)
    requires
        runs_are_sound(runs),
    ensures
        runs_are_sound(runs.filter(kept)),
{
    let all = runs.filter(kept);
    let places = lemma_filter_order(runs, kept);
    assert forall|i: int| 0 <= i < all.len() implies (#[trigger] all[i]).id >= 1 by {
        assert(all[i] == runs[places[i]]);
    }
    assert forall|i: int, j: int| 0 <= i < j < all.len() implies (#[trigger] all[i]).id < (
    #[trigger] all[j]).id by {
        assert(all[i] == runs[places[i]] && all[j] == runs[places[j]]);
        assert(places[i] < places[j]);
    }
}

/// Removes captures nothing needs any more, stops owing reports that are no
/// longer news, and trims the records.
///
/// Kept whatever their age: the capture every receipt is for, the newest
/// complete capture of each list, anything an interrupted walk could be resumed
/// from, any report still owed, and the last run of each account.
pub fn prune(store: &mut Store, now: i64) -> (r: usize)
    requires
        old(store).is_sound(),
    ensures
        final(store).snapshots@ == old(store).snapshots@.filter(
            |row: SnapshotRow|
                !is_unneeded(old(store).snapshots@, old(store).marks@, row, now),
        ),
        r == old(store).snapshots@.len() - final(store).snapshots@.len(),
        cascaded(*old(store), *final(store)),
        facts(final(store).deliveries@) == without_old_reports(
            facts(old(store).deliveries@),
            now,
        ),
        final(store).runs@ == old(store).runs@.filter(
            |row: RunRow| !is_old_run(old(store).runs@, row, now),
        ),
        *final(store) == (Store {
            snapshots: final(store).snapshots,
            members: final(store).members,
            marks: final(store).marks,
            deliveries: final(store).deliveries,
            runs: final(store).runs,
            ..*old(store)
        }),
        final(store).is_sound(),
{
    let removed: usize = prune_captures(store, now);
    prune_deliveries(&mut store.deliveries, now);
    prune_runs(&mut store.runs, now);
    removed
}

/// The largest id of a run, and zero where there is none.
pub open spec fn newest_run(runs: Seq<RunRow>) -> i64
    decreases runs.len(),
{
    if runs.len() == 0 {
        0
    } else if runs.last().id > newest_run(runs.drop_last()) {
        runs.last().id
    } else {
        newest_run(runs.drop_last())
    }
}

proof fn lemma_newest_run(runs: Seq<RunRow>)
    ensures
        newest_run(runs) >= 0,
        forall|i: int| 0 <= i < runs.len() ==> (#[trigger] runs[i]).id <= newest_run(runs),
    decreases runs.len(),
{
    if runs.len() > 0 {
        let rest = runs.drop_last();
        lemma_newest_run(rest);
        assert forall|i: int| 0 <= i < runs.len() implies (#[trigger] runs[i]).id <= newest_run(
            runs,
        ) by {
            if i < rest.len() {
                assert(rest[i] == runs[i]);
            }
        }
    }
}

/// Records a run, whatever came of it, the ones that reported nothing included:
/// the marks say when something was last reported, this says when the monitor
/// last ran.
pub fn record_run(store: &mut Store, run: &Run) -> (r: i64)
    requires
        old(store).is_sound(),
        newest_run(old(store).runs@) < i64::MAX,
    ensures
        r == newest_run(old(store).runs@) + 1,
        final(store).runs@ == old(store).runs@.push(RunRow { id: r, run: *run }),
        *final(store) == (Store { runs: final(store).runs, ..*old(store) }),
        final(store).is_sound(),
{
    let mut newest: i64 = 0;
    let mut i: usize = 0;
    while i < store.runs.len()
        invariant
            *store == *old(store),
            i <= store.runs@.len(),
            newest == newest_run(store.runs@.take(i as int)),
        decreases store.runs@.len() - i,
    {
        assert(store.runs@.take(i + 1).drop_last() == store.runs@.take(i as int));
        if store.runs[i].id > newest {
            newest = store.runs[i].id;
        }
        i = i + 1;
    }
    assert(store.runs@.take(store.runs@.len() as int) == store.runs@);
    proof {
        lemma_newest_run(store.runs@);
    }
    store.runs.push(RunRow { id: newest + 1, run: run.clone() });
    newest + 1
}

/// Whether a run is the last of its account.
pub open spec fn is_a_last_run(runs: Seq<RunRow>, run: Run) -> bool {
    exists|i: int| 0 <= i < runs.len() && is_last_run(runs, #[trigger] runs[i]) && runs[i].run == run
}

/// Whether there is a run of this account among these.
pub open spec fn speaks_of(runs: Seq<Run>, account: Pk) -> bool {
    exists|k: int| 0 <= k < runs.len() && (#[trigger] runs[k]).account_pk == account
}

/// The most recent run of every account that has ever run, by account.
///
/// The set of accounts comes from the runs and not from the marks: an account
/// whose every tick was refused has runs and no mark at all.
pub fn last_runs(store: &Store) -> (r: Vec<Run>)
    requires
        store.is_sound(),
    ensures
        forall|k: int| 0 <= k < r@.len() ==> is_a_last_run(store.runs@, #[trigger] r@[k]),
        forall|j: int, k: int|
            0 <= j < k < r@.len() ==> sql_number((#[trigger] r@[j]).account_pk) < sql_number(
                (#[trigger] r@[k]).account_pk,
            ),
        forall|i: int|
            0 <= i < store.runs@.len() ==> speaks_of(r@, (#[trigger] store.runs@[i]).run.account_pk),
{
    let ghost runs = store.runs@;
    let mut r: Vec<Run> = Vec::new();
    let mut i: usize = 0;
    while i < store.runs.len()
        invariant
            runs == store.runs@,
            runs_are_sound(runs),
            i <= runs.len(),
            forall|k: int| 0 <= k < r@.len() ==> is_an_early_last_run(runs, #[trigger] r@[k], i as int),
            forall|j: int, k: int|
                0 <= j < k < r@.len() ==> sql_number((#[trigger] r@[j]).account_pk) < sql_number(
                    (#[trigger] r@[k]).account_pk,
                ),
            forall|j: int|
                0 <= j < i && is_last_run(runs, #[trigger] runs[j]) ==> speaks_of(
                    r@,
                    runs[j].run.account_pk,
                ),
        decreases runs.len() - i,
    {
        let ghost before = r@;
        if last_run(&store.runs, i) {
            let run = store.runs[i].run.clone();
            let key: i64 = pk_to_sql(run.account_pk);
            let mut p: usize = r.len();
            while p > 0 && pk_to_sql(r[p - 1].account_pk) > key
                invariant
                    r@ == before,
                    p <= r@.len(),
                    key == sql_number(run.account_pk),
                    forall|k: int|
                        p <= k < r@.len() ==> sql_number((#[trigger] r@[k]).account_pk) > key,
                decreases p,
            {
                p = p - 1;
            }
            proof {
                assert forall|k: int| 0 <= k < before.len() implies (#[trigger] before[k]).account_pk
                    != run.account_pk by {
                    if before[k].account_pk == run.account_pk {
                        assert(is_an_early_last_run(runs, before[k], i as int));
                        let e = choose|e: int|
                            0 <= e < i && is_last_run(runs, #[trigger] runs[e]) && runs[e].run
                                == before[k];
                        assert(runs[e].run.account_pk == runs[i as int].run.account_pk);
                        assert(runs[e].id < runs[i as int].id);
                    }
                }
                assert forall|j: int, k: int| 0 <= j < p <= k < before.len() implies sql_number(
                    (#[trigger] before[j]).account_pk,
                ) < sql_number((#[trigger] before[k]).account_pk) by {}
                assert forall|j: int| 0 <= j < p implies sql_number(
                    (#[trigger] before[j]).account_pk,
                ) < key by {
                    if j < p - 1 {
                        assert(sql_number(before[j].account_pk) < sql_number(
                            before[p - 1].account_pk,
                        ));
                    }
                    assert(before[p - 1].account_pk != run.account_pk);
                }
            }
            let ghost new = run;
            r.insert(p, run);
            proof {
                lemma_inserted_run(runs, before, r@, p as int, new, i as int);
            }
        } else {
            proof {
                assert forall|k: int| 0 <= k < r@.len() implies is_an_early_last_run(
                    runs,
                    #[trigger] r@[k],
                    i + 1,
                ) by {
                    assert(is_an_early_last_run(runs, r@[k], i as int));
                    let e = choose|e: int|
                        0 <= e < i && is_last_run(runs, #[trigger] runs[e]) && runs[e].run == r@[k];
                    assert(is_last_run(runs, runs[e]));
                }
            }
        }
        i = i + 1;
    }
    proof {
        assert forall|k: int| 0 <= k < r@.len() implies is_a_last_run(runs, #[trigger] r@[k]) by {
            assert(is_an_early_last_run(runs, r@[k], runs.len() as int));
        }
        assert forall|j: int| 0 <= j < runs.len() implies speaks_of(
            r@,
            (#[trigger] runs[j]).run.account_pk,
        ) by {
            let last = lemma_some_last_run(runs, runs[j].run.account_pk, j);
            assert(is_last_run(runs, runs[last]));
        }
    }
    r
}

/// Whether a run is the last of its account, and among the first recorded.
spec fn is_an_early_last_run(runs: Seq<RunRow>, run: Run, n: int) -> bool {
    exists|i: int| 0 <= i < n && is_last_run(runs, #[trigger] runs[i]) && runs[i].run == run
}

proof fn lemma_inserted_run(
    runs: Seq<RunRow>,
    before: Seq<Run>,
    after: Seq<Run>,
    p: int,
    new: Run,
    i: int,
)
    requires
        0 <= i < runs.len(),
        is_last_run(runs, runs[i]),
        runs[i].run == new,
        0 <= p <= before.len(),
        after == before.insert(p, new),
        forall|k: int| 0 <= k < before.len() ==> is_an_early_last_run(runs, #[trigger] before[k], i),
        forall|j: int, k: int|
            0 <= j < k < before.len() ==> sql_number((#[trigger] before[j]).account_pk)
                < sql_number((#[trigger] before[k]).account_pk),
        forall|j: int|
            0 <= j < p ==> sql_number((#[trigger] before[j]).account_pk) < sql_number(
                new.account_pk,
            ),
        forall|k: int|
            p <= k < before.len() ==> sql_number((#[trigger] before[k]).account_pk) > sql_number(
                new.account_pk,
            ),
        forall|j: int|
            0 <= j < i && is_last_run(runs, #[trigger] runs[j]) ==> speaks_of(
                before,
                runs[j].run.account_pk,
            ),
    ensures
        forall|k: int| 0 <= k < after.len() ==> is_an_early_last_run(runs, #[trigger] after[k], i + 1),
        forall|j: int, k: int|
            0 <= j < k < after.len() ==> sql_number((#[trigger] after[j]).account_pk) < sql_number(
                (#[trigger] after[k]).account_pk,
            ),
        forall|j: int|
            0 <= j < i + 1 && is_last_run(runs, #[trigger] runs[j]) ==> speaks_of(
                after,
                runs[j].run.account_pk,
            ),
{
    assert forall|k: int| 0 <= k < after.len() implies is_an_early_last_run(
        runs,
        #[trigger] after[k],
        i + 1,
    ) by {
        if k == p {
            assert(is_last_run(runs, runs[i]));
        } else {
            let old_k = if k < p {
                k
            } else {
                k - 1
            };
            assert(after[k] == before[old_k]);
            assert(is_an_early_last_run(runs, before[old_k], i));
            let e = choose|e: int|
                0 <= e < i && is_last_run(runs, #[trigger] runs[e]) && runs[e].run == before[old_k];
            assert(is_last_run(runs, runs[e]));
        }
    }
    assert forall|j: int, k: int| 0 <= j < k < after.len() implies sql_number(
        (#[trigger] after[j]).account_pk,
    ) < sql_number((#[trigger] after[k]).account_pk) by {
        if j < p {
            assert(after[j] == before[j]);
        } else if j > p {
            assert(after[j] == before[j - 1]);
        }
        if k < p {
            assert(after[k] == before[k]);
        } else if k > p {
            assert(after[k] == before[k - 1]);
        }
    }
    assert forall|j: int| 0 <= j < i + 1 && is_last_run(runs, #[trigger] runs[j]) implies speaks_of(
        after,
        runs[j].run.account_pk,
    ) by {
        if j == i {
            assert(after[p].account_pk == runs[j].run.account_pk);
        } else {
            let k = choose|k: int|
                0 <= k < before.len() && (#[trigger] before[k]).account_pk == runs[j].run.account_pk;
            if k < p {
                assert(after[k].account_pk == runs[j].run.account_pk);
            } else {
                assert(after[k + 1].account_pk == runs[j].run.account_pk);
            }
        }
    }
}

/// Every account that has a run has a last one.
proof fn lemma_some_last_run(runs: Seq<RunRow>, account: Pk, j: int) -> (last: int)
    requires
        0 <= j < runs.len(),
        runs[j].run.account_pk == account,
    ensures
        0 <= last < runs.len(),
        runs[last].run.account_pk == account,
        is_last_run(runs, runs[last]),
    decreases runs.len(),
{
    let rest = runs.drop_last();
    let end = runs.len() - 1;
    if runs[end].run.account_pk != account {
        let last = lemma_some_last_run(rest, account, j);
        assert forall|k: int| 0 <= k < runs.len() && (#[trigger] runs[k]).run.account_pk
            == account implies runs[last].run.started_at > runs[k].run.started_at || (
        runs[last].run.started_at == runs[k].run.started_at && runs[last].id >= runs[k].id) by {
            assert(rest[k] == runs[k]);
        }
        last
    } else if exists|k: int| 0 <= k < rest.len() && (#[trigger] rest[k]).run.account_pk == account {
        let k = choose|k: int| 0 <= k < rest.len() && (#[trigger] rest[k]).run.account_pk == account;
        let last = lemma_some_last_run(rest, account, k);
        let (a, b) = (runs[last], runs[end]);
        let winner = if a.run.started_at > b.run.started_at || (a.run.started_at == b.run.started_at
            && a.id >= b.id) {
            last
        } else {
            end
        };
        assert forall|m: int| 0 <= m < runs.len() && (#[trigger] runs[m]).run.account_pk
            == account implies runs[winner].run.started_at > runs[m].run.started_at || (
        runs[winner].run.started_at == runs[m].run.started_at && runs[winner].id >= runs[m].id) by {
            if m < end {
                assert(rest[m] == runs[m]);
            }
        }
        winner
    } else {
        assert forall|m: int| 0 <= m < runs.len() && (#[trigger] runs[m]).run.account_pk
            == account implies m == end by {
            if m < end {
                assert(rest[m] == runs[m]);
            }
        }
        end
    }
}

/// When the monitor last started a run, for any account. One loop covers every
/// watched account, so this is one moment.
pub fn last_started(store: &Store) -> (r: Option<i64>)
    ensures
        match r {
            Some(at) => {
                &&& exists|i: int|
                    0 <= i < store.runs@.len() && (#[trigger] store.runs@[i]).run.started_at == at
                &&& forall|i: int|
                    0 <= i < store.runs@.len() ==> (#[trigger] store.runs@[i]).run.started_at <= at
            },
            None => store.runs@.len() == 0,
        },
{
    let mut latest: Option<i64> = None;
    let mut i: usize = 0;
    while i < store.runs.len()
        invariant
            i <= store.runs@.len(),
            match latest {
                Some(at) => {
                    &&& exists|j: int|
                        0 <= j < i && (#[trigger] store.runs@[j]).run.started_at == at
                    &&& forall|j: int|
                        0 <= j < i ==> (#[trigger] store.runs@[j]).run.started_at <= at
                },
                None => i == 0,
            },
        decreases store.runs@.len() - i,
    {
        let at: i64 = store.runs[i].run.started_at;
        let later = match latest {
            Some(best) => at > best,
            None => true,
        };
        assert(store.runs@[i as int].run.started_at == at);
        if later {
            latest = Some(at);
        }
        i = i + 1;
    }
    latest
}

/// How the two lists sort: by their names.
pub open spec fn kind_rank(kind: ListKind) -> int {
    match kind {
        ListKind::Followers => 0,
        ListKind::Following => 1,
    }
}

/// Whether a receipt stands before another: made later, then by account, then by
/// list.
pub open spec fn stands_before(a: AccountMark, b: AccountMark) -> bool {
    ||| a.compared_at > b.compared_at
    ||| a.compared_at == b.compared_at && sql_number(a.account_pk) < sql_number(b.account_pk)
    ||| a.compared_at == b.compared_at && a.account_pk == b.account_pk && kind_rank(a.kind)
        < kind_rank(b.kind)
}

fn before(a: AccountMark, b: AccountMark) -> (r: bool)
    ensures
        r == stands_before(a, b),
{
    let first = matches!(a.kind, ListKind::Followers) && matches!(b.kind, ListKind::Following);
    a.compared_at > b.compared_at || (a.compared_at == b.compared_at && (pk_to_sql(a.account_pk)
        < pk_to_sql(b.account_pk) || (a.account_pk == b.account_pk && first)))
}

/// Every receipt there is, newest first.
///
/// It is the only way to tell a monitor that has been running and finding
/// nothing from one that stopped weeks ago.
pub fn all_marks(store: &Store) -> (r: Vec<AccountMark>)
    requires
        store.is_sound(),
    ensures
        r@.to_multiset() == store.marks@.to_multiset(),
        forall|i: int, j: int|
            0 <= i < j < r@.len() ==> stands_before(#[trigger] r@[i], #[trigger] r@[j]),
{
    broadcast use vstd::seq_lib::group_to_multiset_ensures;

    let ghost marks = store.marks@;
    let mut r: Vec<AccountMark> = Vec::new();
    let mut i: usize = 0;
    assert(r@ =~= marks.take(0));
    while i < store.marks.len()
        invariant
            marks == store.marks@,
            store.is_sound(),
            i <= marks.len(),
            r@.len() == i,
            r@.to_multiset() == marks.take(i as int).to_multiset(),
            forall|j: int, k: int|
                0 <= j < k < r@.len() ==> stands_before(#[trigger] r@[j], #[trigger] r@[k]),
            forall|k: int| 0 <= k < r@.len() ==> is_early(marks, #[trigger] r@[k], i as int),
        decreases marks.len() - i,
    {
        let mark = store.marks[i];
        let ghost sofar = r@;
        let mut p: usize = r.len();
        while p > 0 && before(mark, r[p - 1])
            invariant
                r@ == sofar,
                p <= r@.len(),
                forall|k: int| p <= k < r@.len() ==> stands_before(mark, #[trigger] r@[k]),
            decreases p,
        {
            p = p - 1;
        }
        proof {
            assert forall|k: int| 0 <= k < p implies stands_before(#[trigger] sofar[k], mark) by {
                assert(is_early(marks, sofar[p - 1], i as int));
                let e = choose|e: int| 0 <= e < i && #[trigger] marks[e] == sofar[p - 1];
                assert(!(marks[e].account_pk == marks[i as int].account_pk && marks[e].kind
                    == marks[i as int].kind));
                assert(stands_before(sofar[p - 1], mark));
                if k < p - 1 {
                    assert(stands_before(sofar[k], sofar[p - 1]));
                }
            }
        }
        r.insert(p, mark);
        proof {
            assert(marks.take(i + 1) =~= marks.take(i as int).push(mark));
            vstd::seq_lib::to_multiset_insert(sofar, p as int, mark);
            vstd::seq_lib::to_multiset_build(marks.take(i as int), mark);
            assert(r@ == sofar.insert(p as int, mark));
            assert forall|j: int, k: int| 0 <= j < k < r@.len() implies stands_before(
                #[trigger] r@[j],
                #[trigger] r@[k],
            ) by {
                if j < p {
                    assert(r@[j] == sofar[j]);
                } else if j > p {
                    assert(r@[j] == sofar[j - 1]);
                }
                if k < p {
                    assert(r@[k] == sofar[k]);
                } else if k > p {
                    assert(r@[k] == sofar[k - 1]);
                }
            }
            assert forall|k: int| 0 <= k < r@.len() implies is_early(marks, #[trigger] r@[k], i + 1) by {
                if k == p {
                    assert(marks[i as int] == r@[k]);
                } else {
                    let old_k = if k < p as int {
                        k
                    } else {
                        k - 1
                    };
                    assert(r@[k] == sofar[old_k]);
                    assert(is_early(marks, sofar[old_k], i as int));
                    let e = choose|e: int| 0 <= e < i && #[trigger] marks[e] == sofar[old_k];
                    assert(marks[e] == r@[k]);
                }
            }
        }
        i = i + 1;
    }
    assert(marks.take(marks.len() as int) == marks);
    r
}

/// Whether a receipt is among the first of these.
spec fn is_early(marks: Seq<AccountMark>, mark: AccountMark, n: int) -> bool {
    exists|e: int| 0 <= e < n && #[trigger] marks[e] == mark
}

/// The newest row in the rename history, as an id, and zero where there is none.
///
/// Anything filed later has a larger id, which is what makes "already reported"
/// a decidable question.
pub fn history_head(store: &Store) -> (r: i64)
    ensures
        r == newest_entry(store.history@),
{
    find_newest_entry(&store.history)
}

/// The receipts after a list was reported up to a capture.
pub open spec fn with_mark(
    marks: Seq<AccountMark>,
    account: Pk,
    kind: ListKind,
    snapshot_id: i64,
    at: i64,
) -> Seq<AccountMark> {
    let made = AccountMark {
        account_pk: account,
        kind,
        snapshot_id: Some(snapshot_id),
        compared_at: at,
    };
    if has_mark(marks, account, kind) {
        marks.map_values(
            |mark: AccountMark|
                if mark.is_for(account, kind) {
                    made
                } else {
                    mark
                },
        )
    } else {
        marks.push(made)
    }
}

/// Records that everything up to this capture has been reported.
///
/// The receipt is moved whatever it was for before, the same capture or none
/// included.
pub fn set_mark(store: &mut Store, account_pk: Pk, kind: ListKind, snapshot_id: i64, at: i64) -> (r:
    Result<(), StoreError>)
    requires
        old(store).is_sound(),
    ensures
        match r {
            Ok(()) => {
                &&& has_capture(old(store).snapshots@, snapshot_id)
                &&& final(store).marks@ == with_mark(
                    old(store).marks@,
                    account_pk,
                    kind,
                    snapshot_id,
                    at,
                )
                &&& *final(store) == (Store { marks: final(store).marks, ..*old(store) })
            },
            Err(e) => {
                &&& e == StoreError::NoSuchCapture
                &&& !has_capture(old(store).snapshots@, snapshot_id)
                &&& *final(store) == *old(store)
            },
        },
        final(store).is_sound(),
{
    if !is_there(&store.snapshots, snapshot_id) {
        return Err(StoreError::NoSuchCapture);
    }
    put_mark(&mut store.marks, account_pk, kind, snapshot_id, at, Ghost(store.snapshots@));
    Ok(())
}

fn is_there(rows: &Vec<SnapshotRow>, id: i64) -> (r: bool)
    ensures
        r == has_capture(rows@, id),
{
    let mut i: usize = 0;
    while i < rows.len()
        invariant
            i <= rows@.len(),
            forall|j: int| 0 <= j < i ==> (#[trigger] rows@[j]).id != id,
        decreases rows@.len() - i,
    {
        if rows[i].id == id {
            assert(rows@[i as int].id == id);
            return true;
        }
        i = i + 1;
    }
    false
}

fn put_mark(
    marks: &mut Vec<AccountMark>,
    account_pk: Pk,
    kind: ListKind,
    snapshot_id: i64,
    at: i64,
    Ghost(rows): Ghost<Seq<SnapshotRow>>,
)
    requires
        marks_are_sound(old(marks)@, rows),
        has_capture(rows, snapshot_id),
    ensures
        final(marks)@ == with_mark(old(marks)@, account_pk, kind, snapshot_id, at),
        marks_are_sound(final(marks)@, rows),
{
    match locate_mark(marks, account_pk, kind) {
        Some(i) => {
            marks[i].snapshot_id = Some(snapshot_id);
            marks[i].compared_at = at;
            proof {
                assert(old(marks)@[i as int].is_for(account_pk, kind));
                assert forall|j: int| 0 <= j < old(marks)@.len() && j != i implies !(
                #[trigger] old(marks)@[j]).is_for(account_pk, kind) by {
                    if j < i {
                        assert(old(marks)@[i as int].account_pk == account_pk);
                    }
                }
                assert(marks@ =~= with_mark(old(marks)@, account_pk, kind, snapshot_id, at));
            }
        },
        None => {
            marks.push(
                AccountMark {
                    account_pk,
                    kind,
                    snapshot_id: Some(snapshot_id),
                    compared_at: at,
                },
            );
        },
    }
}

/// Whether an account has a cursor.
pub open spec fn has_cursor(cursors: Seq<RenameCursor>, account: Pk) -> bool {
    exists|i: int| 0 <= i < cursors.len() && (#[trigger] cursors[i]).account_pk == account
}

/// How far along the rename history an account has been reported: zero where it
/// never has been.
pub open spec fn cursor_of(cursors: Seq<RenameCursor>, account: Pk) -> i64
    decreases cursors.len(),
{
    if cursors.len() == 0 {
        0
    } else if cursors.first().account_pk == account {
        cursors.first().cursor
    } else {
        cursor_of(cursors.drop_first(), account)
    }
}

fn locate_cursor(cursors: &Vec<RenameCursor>, account_pk: Pk) -> (r: Option<usize>)
    ensures
        match r {
            Some(i) => i < cursors@.len() && cursors@[i as int].account_pk == account_pk
                && cursor_of(cursors@, account_pk) == cursors@[i as int].cursor,
            None => cursor_of(cursors@, account_pk) == 0 && !has_cursor(cursors@, account_pk),
        },
{
    let mut i: usize = 0;
    assert(cursors@.skip(0) == cursors@);
    while i < cursors.len()
        invariant
            i <= cursors@.len(),
            cursor_of(cursors@, account_pk) == cursor_of(cursors@.skip(i as int), account_pk),
            forall|j: int| 0 <= j < i ==> (#[trigger] cursors@[j]).account_pk != account_pk,
        decreases cursors@.len() - i,
    {
        assert(cursors@.skip(i as int).drop_first() == cursors@.skip(i + 1));
        if cursors[i].account_pk == account_pk {
            return Some(i);
        }
        i = i + 1;
    }
    None
}

/// How far along the rename history this account has been reported. One number
/// per account, not one per list.
pub fn rename_cursor(store: &Store, account_pk: Pk) -> (r: i64)
    ensures
        r == cursor_of(store.cursors@, account_pk),
{
    match locate_cursor(&store.cursors, account_pk) {
        Some(i) => store.cursors[i].cursor,
        None => 0,
    }
}

/// The cursors after the history was reported further.
pub open spec fn with_cursor(cursors: Seq<RenameCursor>, account: Pk, cursor: i64, at: i64) -> Seq<
    RenameCursor,
> {
    let made = RenameCursor { account_pk: account, cursor, marked_at: at };
    if has_cursor(cursors, account) {
        cursors.map_values(
            |row: RenameCursor|
                if row.account_pk == account {
                    made
                } else {
                    row
                },
        )
    } else {
        cursors.push(made)
    }
}

/// Records that the rename history has been reported up to `cursor`. Called only
/// when a window was actually read.
pub fn set_rename_cursor(store: &mut Store, account_pk: Pk, cursor: i64, at: i64)
    requires
        old(store).is_sound(),
    ensures
        final(store).cursors@ == with_cursor(old(store).cursors@, account_pk, cursor, at),
        *final(store) == (Store { cursors: final(store).cursors, ..*old(store) }),
        final(store).is_sound(),
{
    match locate_cursor(&store.cursors, account_pk) {
        Some(i) => {
            store.cursors[i].cursor = cursor;
            store.cursors[i].marked_at = at;
            proof {
                assert(old(store).cursors@[i as int].account_pk == account_pk);
                assert(store.cursors@ =~= with_cursor(
                    old(store).cursors@,
                    account_pk,
                    cursor,
                    at,
                ));
            }
        },
        None => {
            store.cursors.push(RenameCursor { account_pk, cursor, marked_at: at });
        },
    }
}

/// When an interval schedule started counting, if it ever wrote it down.
pub fn interval_seeded_at(store: &Store) -> (r: Option<i64>)
    ensures
        r == store.interval_seed,
{
    store.interval_seed
}

/// Writes it down once: a later start never moves the instant the interval is
/// measured from.
pub fn set_interval_seeded_at(store: &mut Store, at: i64)
    requires
        old(store).is_sound(),
    ensures
        final(store).interval_seed == Some(
            match old(store).interval_seed {
                Some(first) => first,
                None => at,
            },
        ),
        *final(store) == (Store { interval_seed: final(store).interval_seed, ..*old(store) }),
        final(store).is_sound(),
{
    if store.interval_seed.is_none() {
        store.interval_seed = Some(at);
    }
}

/// Whether a rename has gone out for an account.
pub open spec fn was_sent(sent: Seq<SentRename>, account: Pk, history_id: i64) -> bool {
    exists|i: int|
        0 <= i < sent.len() && (#[trigger] sent[i]).account_pk == account && sent[i].history_id
            == history_id
}

/// Which renames in the open window have already gone out for this account.
///
/// The cursor says how far the history was scanned, which is the wrong tool for
/// what has already been said: a run that reads a window while one list is
/// refused says what it can see and must not move the cursor.
pub fn renames_already_sent(store: &Store, account_pk: Pk) -> (r: HashSet<i64>)
    ensures
        forall|id: i64| #[trigger] r@.contains(id) <==> was_sent(store.sent@, account_pk, id),
{
    broadcast use vstd::std_specs::hash::group_hash_axioms;

    let mut r: HashSet<i64> = HashSet::new();
    let mut i: usize = 0;
    while i < store.sent.len()
        invariant
            i <= store.sent@.len(),
            forall|id: i64| #[trigger]
                r@.contains(id) <==> was_sent(store.sent@.take(i as int), account_pk, id),
        decreases store.sent@.len() - i,
    {
        broadcast use vstd::std_specs::hash::group_hash_axioms;

        let row = store.sent[i];
        let ghost known = r@;
        if row.account_pk == account_pk {
            r.insert(row.history_id);
        }
        proof {
            let (x, y) = (store.sent@.take(i as int), store.sent@.take(i + 1));
            assert(y == x.push(row));
            assert forall|id: i64| #[trigger] r@.contains(id) <==> was_sent(y, account_pk, id) by {
                assert(known.contains(id) <==> was_sent(x, account_pk, id));
                lemma_one_more_sent(x, row, account_pk, id);
            }
        }
        i = i + 1;
    }
    assert(store.sent@.take(store.sent@.len() as int) == store.sent@);
    r
}

proof fn lemma_one_more_sent(sent: Seq<SentRename>, row: SentRename, account: Pk, id: i64)
    ensures
        was_sent(sent.push(row), account, id) <==> was_sent(sent, account, id) || (row.account_pk
            == account && row.history_id == id),
{
    let more = sent.push(row);
    if was_sent(sent, account, id) {
        let i = choose|i: int|
            0 <= i < sent.len() && (#[trigger] sent[i]).account_pk == account && sent[i].history_id
                == id;
        assert(more[i].account_pk == account);
    }
    if row.account_pk == account && row.history_id == id {
        assert(more[sent.len() as int].account_pk == account);
    }
    if was_sent(more, account, id) {
        let i = choose|i: int|
            0 <= i < more.len() && (#[trigger] more[i]).account_pk == account && more[i].history_id
                == id;
        if i < sent.len() {
            assert(sent[i].account_pk == account);
        }
    }
}

/// What has gone out, after one more report.
pub open spec fn with_sent(sent: Seq<SentRename>, account: Pk, ids: Seq<i64>, at: i64) -> Seq<
    SentRename,
>
    decreases ids.len(),
{
    if ids.len() == 0 {
        sent
    } else {
        let rest = with_sent(sent, account, ids.drop_last(), at);
        if was_sent(rest, account, ids.last()) {
            rest
        } else {
            rest.push(SentRename { account_pk: account, history_id: ids.last(), sent_at: at })
        }
    }
}

/// Files the renames a report is announcing, so no later one repeats them.
fn record_renames_sent(sent: &mut Vec<SentRename>, account_pk: Pk, history_ids: &[i64], at: i64)
    requires
        sent_is_sound(old(sent)@),
    ensures
        final(sent)@ == with_sent(old(sent)@, account_pk, history_ids@, at),
        sent_is_sound(final(sent)@),
{
    let mut i: usize = 0;
    while i < history_ids.len()
        invariant
            i <= history_ids@.len(),
            sent@ == with_sent(old(sent)@, account_pk, history_ids@.take(i as int), at),
            sent_is_sound(sent@),
        decreases history_ids@.len() - i,
    {
        assert(history_ids@.take(i + 1).drop_last() == history_ids@.take(i as int));
        let id: i64 = history_ids[i];
        if !sent_already(sent, account_pk, id) {
            sent.push(SentRename { account_pk, history_id: id, sent_at: at });
        }
        i = i + 1;
    }
    assert(history_ids@.take(history_ids@.len() as int) == history_ids@);
}

fn sent_already(sent: &Vec<SentRename>, account_pk: Pk, id: i64) -> (r: bool)
    ensures
        r == was_sent(sent@, account_pk, id),
{
    let mut i: usize = 0;
    while i < sent.len()
        invariant
            i <= sent@.len(),
            forall|j: int|
                0 <= j < i ==> !((#[trigger] sent@[j]).account_pk == account_pk
                    && sent@[j].history_id == id),
        decreases sent@.len() - i,
    {
        if sent[i].account_pk == account_pk && sent[i].history_id == id {
            assert(sent@[i as int].account_pk == account_pk);
            return true;
        }
        i = i + 1;
    }
    false
}

/// Whether a filed rename is below where the window now starts, and so never
/// read again.
pub open spec fn is_below(row: SentRename, account: Pk, cursor: i64) -> bool {
    row.account_pk == account && row.history_id <= cursor
}

fn drop_below(sent: &mut Vec<SentRename>, account_pk: Pk, cursor: i64)
    requires
        sent_is_sound(old(sent)@),
    ensures
        final(sent)@ == old(sent)@.filter(|row: SentRename| !is_below(row, account_pk, cursor)),
        sent_is_sound(final(sent)@),
{
    let mut kept: Vec<SentRename> = Vec::new();
    let ghost keep = |row: SentRename| !is_below(row, account_pk, cursor);
    let mut i: usize = 0;
    assert(kept@ == sent@.take(0).filter(keep)) by {
        reveal(Seq::filter);
    }
    while i < sent.len()
        invariant
            sent@ == old(sent)@,
            keep == (|row: SentRename| !is_below(row, account_pk, cursor)),
            i <= sent@.len(),
            kept@ == sent@.take(i as int).filter(keep),
        decreases sent@.len() - i,
    {
        proof {
            reveal(Seq::filter);
            assert(sent@.take(i + 1).drop_last() == sent@.take(i as int));
        }
        let row = sent[i];
        if !(row.account_pk == account_pk && row.history_id <= cursor) {
            kept.push(row);
        }
        i = i + 1;
    }
    proof {
        assert(sent@.take(sent@.len() as int) == sent@);
        let places = lemma_filter_order(sent@, keep);
        assert forall|i: int, j: int|
            #![trigger kept@[i], kept@[j]]
            0 <= i < j < kept@.len() implies !(kept@[i].account_pk == kept@[j].account_pk
            && kept@[i].history_id == kept@[j].history_id) by {
            assert(kept@[i] == sent@[places[i]] && kept@[j] == sent@[places[j]]);
            assert(places[i] < places[j]);
        }
    }
    *sent = kept;
}

/// A report to queue.
pub struct Queued<'a> {
    pub run_id: &'a str,
    pub body: &'a str,
    /// Where it is addressed. `None` when this run has no webhook, so the report
    /// is only printed.
    pub destination: Option<&'a str>,
}

/// The receipts after a report spoke about some lists.
pub open spec fn with_marks(
    marks: Seq<AccountMark>,
    account: Pk,
    made: Seq<(ListKind, i64)>,
    at: i64,
) -> Seq<AccountMark>
    decreases made.len(),
{
    if made.len() == 0 {
        marks
    } else {
        with_mark(
            with_marks(marks, account, made.drop_last(), at),
            account,
            made.last().0,
            made.last().1,
            at,
        )
    }
}

/// Whether every capture a report would mark is there.
pub open spec fn all_are_there(rows: Seq<SnapshotRow>, made: Seq<(ListKind, i64)>) -> bool {
    forall|i: int| 0 <= i < made.len() ==> has_capture(rows, (#[trigger] made[i]).1)
}

/// What a report leaves behind.
pub open spec fn is_committed(
    before: Store,
    after: Store,
    account: Pk,
    made: Seq<(ListKind, i64)>,
    at: i64,
    cursor: Option<i64>,
    renames: Seq<i64>,
    delivery: Option<Queued<'_>>,
) -> bool {
    &&& facts(after.deliveries@) == match delivery {
        Some(queued) => with_report(
            facts(before.deliveries@),
            queued.run_id@,
            account,
            queued.body@,
            at,
            str_in(queued.destination),
        ),
        None => facts(before.deliveries@),
    }
    &&& after.marks@ == with_marks(before.marks@, account, made, at)
    &&& after.cursors@ == match cursor {
        Some(cursor) => with_cursor(before.cursors@, account, cursor, at),
        None => before.cursors@,
    }
    &&& after.sent@ == match cursor {
        Some(cursor) => with_sent(before.sent@, account, renames, at).filter(
            |row: SentRename| !is_below(row, account, cursor),
        ),
        None => with_sent(before.sent@, account, renames, at),
    }
    &&& after == (Store {
        deliveries: after.deliveries,
        marks: after.marks,
        cursors: after.cursors,
        sent: after.sent,
        ..before
    })
}

/// Commits a report: queues it, and moves the marks it makes stale. All of it
/// lands, or none.
///
/// `made` names only the lists this report actually spoke about. A list that was
/// refused is left out by the caller and its mark stays where it was. `cursor`
/// is `None` when this report read no rename window.
pub fn commit_report(
    store: &mut Store,
    account_pk: Pk,
    made: &[(ListKind, i64)],
    at: i64,
    cursor: Option<i64>,
    renames_sent: &[i64],
    delivery: Option<Queued<'_>>,
) -> (r: Result<Option<i64>, StoreError>)
    requires
        old(store).is_sound(),
        newest_report(facts(old(store).deliveries@)) < i64::MAX,
    ensures
        match r {
            Ok(queued) => {
                &&& delivery matches Some(d) ==> !has_run(
                    facts(old(store).deliveries@),
                    d.run_id@,
                )
                &&& all_are_there(old(store).snapshots@, made@)
                &&& queued == (if delivery is Some {
                    Some((newest_report(facts(old(store).deliveries@)) + 1) as i64)
                } else {
                    None
                })
                &&& is_committed(
                    *old(store),
                    *final(store),
                    account_pk,
                    made@,
                    at,
                    cursor,
                    renames_sent@,
                    delivery,
                )
            },
            Err(StoreError::RepeatedRunId) => {
                &&& delivery matches Some(d) && has_run(facts(old(store).deliveries@), d.run_id@)
                &&& *final(store) == *old(store)
            },
            Err(e) => {
                &&& e == StoreError::NoSuchCapture
                &&& delivery matches Some(d) ==> !has_run(
                    facts(old(store).deliveries@),
                    d.run_id@,
                )
                &&& !all_are_there(old(store).snapshots@, made@)
                &&& *final(store) == *old(store)
            },
        },
        final(store).is_sound(),
{
    let mut there = true;
    let mut i: usize = 0;
    while i < made.len()
        invariant
            i <= made@.len(),
            there ==> forall|j: int|
                0 <= j < i ==> has_capture(store.snapshots@, (#[trigger] made@[j]).1),
            !there ==> !all_are_there(store.snapshots@, made@),
        decreases made@.len() - i,
    {
        if !is_there(&store.snapshots, made[i].1) {
            assert(!has_capture(store.snapshots@, made@[i as int].1));
            there = false;
        }
        i = i + 1;
    }
    let queued: Option<i64> = match delivery {
        Some(d) => {
            if !there {
                if repeats_run(&store.deliveries, d.run_id) {
                    return Err(StoreError::RepeatedRunId);
                }
                return Err(StoreError::NoSuchCapture);
            }
            match enqueue(store, d.run_id, account_pk, d.body, at, d.destination) {
                Ok(id) => Some(id),
                Err(e) => return Err(e),
            }
        },
        None => {
            if !there {
                return Err(StoreError::NoSuchCapture);
            }
            None
        },
    };
    put_marks(&mut store.marks, account_pk, made, at, Ghost(store.snapshots@));
    if let Some(cursor) = cursor {
        set_rename_cursor(store, account_pk, cursor, at);
    }
    record_renames_sent(&mut store.sent, account_pk, renames_sent, at);
    if let Some(cursor) = cursor {
        drop_below(&mut store.sent, account_pk, cursor);
    }
    Ok(queued)
}

fn repeats_run(rows: &Vec<DeliveryRow>, run_id: &str) -> (r: bool)
    ensures
        r == has_run(facts(rows@), run_id@),
{
    let ghost all = facts(rows@);
    let mut i: usize = 0;
    while i < rows.len()
        invariant
            all == facts(rows@),
            i <= rows@.len() == all.len(),
            forall|j: int| 0 <= j < i ==> (#[trigger] all[j]).run_id != run_id@,
        decreases all.len() - i,
    {
        if same_text(rows[i].run_id.as_str(), run_id) {
            assert(all[i as int].run_id == run_id@);
            return true;
        }
        i = i + 1;
    }
    false
}

fn put_marks(
    marks: &mut Vec<AccountMark>,
    account_pk: Pk,
    made: &[(ListKind, i64)],
    at: i64,
    Ghost(rows): Ghost<Seq<SnapshotRow>>,
)
    requires
        marks_are_sound(old(marks)@, rows),
        all_are_there(rows, made@),
    ensures
        final(marks)@ == with_marks(old(marks)@, account_pk, made@, at),
        marks_are_sound(final(marks)@, rows),
{
    let mut i: usize = 0;
    while i < made.len()
        invariant
            i <= made@.len(),
            all_are_there(rows, made@),
            marks@ == with_marks(old(marks)@, account_pk, made@.take(i as int), at),
            marks_are_sound(marks@, rows),
        decreases made@.len() - i,
    {
        assert(made@.take(i + 1).drop_last() == made@.take(i as int));
        let (kind, snapshot_id): (ListKind, i64) = made[i];
        assert(has_capture(rows, made@[i as int].1));
        put_mark(marks, account_pk, kind, snapshot_id, at, Ghost(rows));
        i = i + 1;
    }
    assert(made@.take(made@.len() as int) == made@);
}

/// Whether a history entry is in a window: after where the last report stopped,
/// and not after where this one looked.
pub open spec fn is_within(entry: HistoryRow, since: i64, head: i64) -> bool {
    since < entry.id <= head
}

/// Whether an entry is the first of its account in a window, so that it holds
/// the name they had when it opened.
pub open spec fn opens_window(
    history: Seq<HistoryRow>,
    entry: HistoryRow,
    since: i64,
    head: i64,
) -> bool {
    &&& is_within(entry, since, head)
    &&& forall|j: int|
        0 <= j < history.len() && (#[trigger] history[j]).pk == entry.pk && is_within(
            history[j],
            since,
            head,
        ) ==> entry.id <= history[j].id
}

/// The renames in a window, among the members of one capture: from the name they
/// had when it opened to the name they have now, where the two differ.
pub open spec fn renames_of(
    entries: Seq<HistoryRow>,
    history: Seq<HistoryRow>,
    users: Seq<UserRow>,
    members: Seq<MemberRow>,
    snapshot_id: i64,
    since: i64,
    head: i64,
) -> Seq<Rename>
    decreases entries.len(),
{
    if entries.len() == 0 {
        Seq::empty()
    } else {
        let entry = entries.last();
        let rest = renames_of(
            entries.drop_last(),
            history,
            users,
            members,
            snapshot_id,
            since,
            head,
        );
        match user_row(users, entry.pk) {
            Some(row) => if opens_window(history, entry, since, head) && is_member(
                members,
                snapshot_id,
                entry.pk,
            ) && entry.username@ != row.user.username@ {
                rest.push(
                    Rename {
                        pk: entry.pk,
                        history_id: entry.id,
                        from: entry.username,
                        to: row.user.username,
                        at: Epoch(entry.changed_at),
                    },
                )
            } else {
                rest
            },
            None => rest,
        }
    }
}

fn first_in_window(history: &Vec<HistoryRow>, i: usize, since: i64, head: i64) -> (r: bool)
    requires
        i < history@.len(),
    ensures
        r == opens_window(history@, history@[i as int], since, head),
{
    let entry = &history[i];
    if !(since < entry.id && entry.id <= head) {
        return false;
    }
    let mut j: usize = 0;
    while j < history.len()
        invariant
            i < history@.len(),
            *entry == history@[i as int],
            is_within(*entry, since, head),
            j <= history@.len(),
            forall|k: int|
                0 <= k < j && (#[trigger] history@[k]).pk == entry.pk && is_within(
                    history@[k],
                    since,
                    head,
                ) ==> entry.id <= history@[k].id,
        decreases history@.len() - j,
    {
        let other = &history[j];
        if other.pk == entry.pk && since < other.id && other.id <= head && other.id < entry.id {
            assert(history@[j as int].pk == entry.pk);
            return false;
        }
        j = j + 1;
    }
    true
}

fn in_capture(members: &Vec<MemberRow>, id: i64, pk: Pk) -> (r: bool)
    ensures
        r == is_member(members@, id, pk),
{
    let mut i: usize = 0;
    while i < members.len()
        invariant
            i <= members@.len(),
            forall|j: int|
                0 <= j < i ==> !((#[trigger] members@[j]).snapshot_id == id && members@[j].user_pk
                    == pk),
        decreases members@.len() - i,
    {
        if members[i].snapshot_id == id && members[i].user_pk == pk {
            assert(members@[i as int].snapshot_id == id);
            return true;
        }
        i = i + 1;
    }
    false
}

/// Renames filed in an interval, for the accounts in one capture.
///
/// The window is everything filed after `since`, up to `head`. Ids rather than
/// moments: a rename filed in the same second as a report would be neither
/// clearly inside the last window nor clearly inside the next.
pub fn renames_since(store: &Store, snapshot_id: i64, since: i64, head: i64) -> (r: Vec<Rename>)
    ensures
        r@ == renames_of(
            store.history@,
            store.history@,
            store.users@,
            store.members@,
            snapshot_id,
            since,
            head,
        ),
{
    let mut r: Vec<Rename> = Vec::new();
    let mut i: usize = 0;
    while i < store.history.len()
        invariant
            i <= store.history@.len(),
            r@ == renames_of(
                store.history@.take(i as int),
                store.history@,
                store.users@,
                store.members@,
                snapshot_id,
                since,
                head,
            ),
        decreases store.history@.len() - i,
    {
        assert(store.history@.take(i + 1).drop_last() == store.history@.take(i as int));
        let entry = &store.history[i];
        if first_in_window(&store.history, i, since, head) && in_capture(
            &store.members,
            snapshot_id,
            entry.pk,
        ) {
            if let Some(k) = locate(&store.users, entry.pk) {
                let to = store.users[k].user.username.clone();
                if !same_text(entry.username.as_str(), to.as_str()) {
                    r.push(
                        Rename {
                            pk: entry.pk,
                            history_id: entry.id,
                            from: entry.username.clone(),
                            to,
                            at: Epoch(entry.changed_at),
                        },
                    );
                }
            }
        }
        i = i + 1;
    }
    assert(store.history@.take(store.history@.len() as int) == store.history@);
    r
}

} // verus!
