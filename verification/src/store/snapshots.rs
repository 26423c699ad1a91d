//! Snapshots: a follower or following list captured at one moment.
//!
//! A snapshot is opened when the walk begins, filled in page by page, and
//! closed at the end. Each page lands whole, and that is what makes saving
//! partial progress simply a matter of stopping.
use std::collections::HashSet;
use vstd::prelude::*;
use vstd::string::*;

use crate::model::{copy_text, ListKind, StopReason, User};
use crate::number::{decimal, push_i64, push_u64, signed_decimal};
use crate::session::text_in;
use crate::store::users::{
    self, has_user, history_is_sound, locate, name_left, names_are_sound, newest_entry, upsert_into,
    user_row, with_rename, with_user, HistoryRow, UserRow,
};
use crate::store::watch::{marks_are_sound, AccountMark};
use crate::store::{now, Store, StoreError};
use crate::text::same_text;
use crate::watch::schedule::zone::in_range;
use crate::Pk;

verus! {

/// How long an interrupted walk may still be resumed.
///
/// Past the window it is not resumed: stitching two separate moments together
/// produces a list that reflects no single instant.
pub const RESUME_WINDOW_SECS: i64 = 900;

/// How long a claim on a walk outlives the last page it saved.
///
/// Shorter than [`RESUME_WINDOW_SECS`], so that a walk whose process was killed
/// can be adopted while it is still worth continuing.
pub const CLAIM_TTL_SECS: i64 = 300;

/// Who a process is, for the length of that process. Not an identity, only
/// "not me".
#[derive(Debug, PartialEq, Eq)]
pub struct Process {
    pub name: String,
}

impl Process {
    /// The process id and the moment it was first asked. Neither alone is
    /// enough: ids are reused, and two processes can start in the same second.
    pub fn new(pid: u32, started_ms: i64) -> (r: Process)
        ensures
            r.name@ == decimal(pid as nat) + seq!['-'] + signed_decimal(started_ms as int),
    {
        let mut name = String::new();
        push_u64(&mut name, pid as u64);
        name.push('-');
        push_i64(&mut name, started_ms);
        assert(name@ == decimal(pid as nat) + seq!['-'] + signed_decimal(started_ms as int));
        Process { name }
    }
}

/// A capture as it is stored.
#[derive(Debug, PartialEq, Eq)]
pub struct SnapshotRow {
    pub id: i64,
    pub account_pk: Pk,
    pub kind: ListKind,
    pub started_at: i64,
    pub taken_at: Option<i64>,
    pub member_count: u64,
    pub declared_count: Option<u64>,
    pub pages: u32,
    pub requests: u32,
    pub resumes: u32,
    pub next_cursor: Option<String>,
    pub complete: bool,
    pub stopped_by: Option<StopReason>,
    pub claimed_by: Option<String>,
    pub claimed_at: Option<i64>,
}

/// Who is in a capture, and in which place they were served.
#[derive(Debug, Clone, Copy, PartialEq, Eq, Structural)]
pub struct MemberRow {
    pub snapshot_id: i64,
    pub user_pk: Pk,
    pub ordinal: u64,
}

/// A capture, as much of it as anything reads.
#[derive(Debug, Clone, PartialEq, Eq)]
pub struct Snapshot {
    pub id: i64,
    pub account_pk: Pk,
    pub kind: ListKind,
    pub started_at: i64,
    pub taken_at: Option<i64>,
    pub member_count: u64,
    pub declared_count: Option<u64>,
    pub pages: u32,
    pub next_cursor: Option<String>,
}

/// What changed when a page was saved.
#[derive(Debug, Clone, PartialEq, Eq)]
pub struct SavedPage {
    /// How many users were not already in the snapshot.
    pub added: usize,
    /// Accounts that have renamed themselves since they were last seen.
    pub renamed: Vec<(Pk, String)>,
}

impl Default for SavedPage {
    fn default() -> (r: SavedPage)
        ensures
            r.added == 0,
            r.renamed@.len() == 0,
    {
        SavedPage { added: 0, renamed: Vec::new() }
    }
}

/// The snapshot a walk has just opened: its id, and the moment it opened.
#[derive(Debug, Clone, Copy, PartialEq, Eq, Structural)]
pub struct Opened {
    pub id: i64,
    pub started_at: i64,
}

impl SnapshotRow {
    /// What anything reads of it.
    pub open spec fn shown(self) -> Snapshot {
        Snapshot {
            id: self.id,
            account_pk: self.account_pk,
            kind: self.kind,
            started_at: self.started_at,
            taken_at: self.taken_at,
            member_count: self.member_count,
            declared_count: self.declared_count,
            pages: self.pages,
            next_cursor: self.next_cursor,
        }
    }

    fn show(&self) -> (r: Snapshot)
        ensures
            r == self.shown(),
    {
        Snapshot {
            id: self.id,
            account_pk: self.account_pk,
            kind: self.kind,
            started_at: self.started_at,
            taken_at: self.taken_at,
            member_count: self.member_count,
            declared_count: self.declared_count,
            pages: self.pages,
            next_cursor: copy_text(&self.next_cursor),
        }
    }

    /// Whether it is a capture of this list.
    pub open spec fn is_of(self, account: Pk, kind: ListKind) -> bool {
        self.account_pk == account && self.kind == kind
    }

    /// Whether a comparison may rest on it: only a list that was walked to its
    /// end says who is missing from it.
    pub open spec fn is_usable(self) -> bool {
        self.complete && self.taken_at is Some
    }

    fn usable(&self) -> (r: bool)
        ensures
            r == self.is_usable(),
    {
        self.complete && self.taken_at.is_some()
    }

    /// Whether this process is the one working on it.
    pub open spec fn is_held_by(self, process: Process) -> bool {
        self.claimed_by matches Some(name) && name@ == process.name@
    }

    fn held_by(&self, process: &Process) -> (r: bool)
        ensures
            r == self.is_held_by(*process),
    {
        match &self.claimed_by {
            Some(name) => same_text(name.as_str(), process.name.as_str()),
            None => false,
        }
    }

    /// Whether nobody is working on it any more: nobody holds it, or whoever
    /// does has not saved a page for too long.
    pub open spec fn is_free(self, now: i64) -> bool {
        ||| self.claimed_by is None
        ||| self.claimed_at is None
        ||| self.claimed_at->0 < now - CLAIM_TTL_SECS
    }

    fn free(&self, now: i64) -> (r: bool)
        ensures
            r == self.is_free(now),
    {
        match self.claimed_at {
            Some(at) => self.claimed_by.is_none() || (at as i128) < now as i128
                - CLAIM_TTL_SECS as i128,
            None => true,
        }
    }

    /// Whether it is a walk that stopped short, recently enough to go on with.
    pub open spec fn is_worth_resuming(self, now: i64) -> bool {
        &&& !self.complete
        &&& self.next_cursor is Some
        &&& self.started_at >= now - RESUME_WINDOW_SECS
    }

    fn worth_resuming(&self, now: i64) -> (r: bool)
        ensures
            r == self.is_worth_resuming(now),
    {
        !self.complete && self.next_cursor.is_some() && self.started_at as i128 >= now as i128
            - RESUME_WINDOW_SECS as i128
    }

    /// Whether this process may go on with it.
    pub open spec fn may_be_resumed(
        self,
        process: Process,
        account: Pk,
        kind: ListKind,
        now: i64,
    ) -> bool {
        &&& self.is_of(account, kind)
        &&& self.is_worth_resuming(now)
        &&& (self.is_free(now) || self.is_held_by(process))
    }

    /// Whether it is a half-finished walk of this list that is in nobody
    /// else's hands.
    pub open spec fn is_leftover(
        self,
        process: Process,
        account: Pk,
        kind: ListKind,
        now: i64,
    ) -> bool {
        &&& self.is_of(account, kind)
        &&& !self.complete
        &&& (self.is_free(now) || self.is_held_by(process))
    }

    /// The row after its walk ended.
    pub open spec fn ended(self, reason: StopReason, at: i64) -> SnapshotRow {
        let complete = reason == StopReason::Completed;
        SnapshotRow {
            complete,
            taken_at: Some(at),
            stopped_by: Some(reason),
            next_cursor: if complete {
                None
            } else {
                self.next_cursor
            },
            claimed_by: None,
            claimed_at: None,
            ..self
        }
    }

    /// The row after a process took it.
    pub open spec fn claimed(self, process: Process, at: i64) -> SnapshotRow {
        SnapshotRow { claimed_by: Some(process.name), claimed_at: Some(at), ..self }
    }

    /// The row after a page of it was saved.
    pub open spec fn advanced(self, added: int, next_cursor: Option<String>, at: i64) -> SnapshotRow {
        SnapshotRow {
            member_count: (self.member_count + added) as u64,
            pages: (self.pages + 1) as u32,
            requests: (self.requests + 1) as u32,
            next_cursor,
            claimed_at: Some(at),
            ..self
        }
    }

    /// Whether its counters can take a page of so many accounts.
    pub open spec fn has_room(self, extra: nat) -> bool {
        &&& self.member_count + extra <= u64::MAX
        &&& self.pages < u32::MAX
        &&& self.requests < u32::MAX
    }
}

/// Whether there is a capture of that id.
pub open spec fn has_capture(rows: Seq<SnapshotRow>, id: i64) -> bool {
    exists|i: int| 0 <= i < rows.len() && (#[trigger] rows[i]).id == id
}

/// The row of a capture.
pub open spec fn capture(rows: Seq<SnapshotRow>, id: i64) -> Option<SnapshotRow>
    decreases rows.len(),
{
    if rows.len() == 0 {
        None
    } else if rows.first().id == id {
        Some(rows.first())
    } else {
        capture(rows.drop_first(), id)
    }
}

proof fn lemma_capture(rows: Seq<SnapshotRow>, id: i64, i: int)
    requires
        0 <= i < rows.len(),
        rows[i].id == id,
        forall|j: int| 0 <= j < i ==> (#[trigger] rows[j]).id != id,
    ensures
        capture(rows, id) == Some(rows[i]),
    decreases i,
{
    if i > 0 {
        let rest = rows.drop_first();
        assert(rows[0].id != id);
        assert forall|j: int| 0 <= j < i - 1 implies (#[trigger] rest[j]).id != id by {
            assert(rest[j] == rows[j + 1]);
        }
        lemma_capture(rest, id, i - 1);
    }
}

proof fn lemma_no_capture(rows: Seq<SnapshotRow>, id: i64)
    requires
        forall|j: int| 0 <= j < rows.len() ==> (#[trigger] rows[j]).id != id,
    ensures
        capture(rows, id) is None,
    decreases rows.len(),
{
    if rows.len() > 0 {
        let rest = rows.drop_first();
        assert(rows[0].id != id);
        assert forall|j: int| 0 <= j < rest.len() implies (#[trigger] rest[j]).id != id by {
            assert(rest[j] == rows[j + 1]);
        }
        lemma_no_capture(rest, id);
    }
}

/// Where the row of a capture is.
pub fn locate_capture(rows: &Vec<SnapshotRow>, id: i64) -> (r: Option<usize>)
    ensures
        match r {
            Some(i) => {
                &&& i < rows@.len()
                &&& rows@[i as int].id == id
                &&& capture(rows@, id) == Some(rows@[i as int])
            },
            None => capture(rows@, id) is None && !has_capture(rows@, id),
        },
{
    let mut i: usize = 0;
    while i < rows.len()
        invariant
            i <= rows@.len(),
            forall|j: int| 0 <= j < i ==> (#[trigger] rows@[j]).id != id,
        decreases rows@.len() - i,
    {
        if rows[i].id == id {
            proof {
                lemma_capture(rows@, id, i as int);
            }
            return Some(i);
        }
        i = i + 1;
    }
    proof {
        lemma_no_capture(rows@, id);
    }
    None
}

/// Whether the ids are positive and grow as captures are opened.
pub open spec fn captures_are_sound(rows: Seq<SnapshotRow>) -> bool {
    &&& forall|i: int| 0 <= i < rows.len() ==> (#[trigger] rows[i]).id >= 1
    &&& forall|i: int, j: int|
        0 <= i < j < rows.len() ==> (#[trigger] rows[i]).id < (#[trigger] rows[j]).id
}

/// Whether a member has its place in a capture that is there.
pub open spec fn is_placed(member: MemberRow, rows: Seq<SnapshotRow>) -> bool {
    exists|i: int|
        0 <= i < rows.len() && (#[trigger] rows[i]).id == member.snapshot_id && member.ordinal
            < rows[i].member_count
}

/// Whether every member is in a capture that is there, nobody is in one twice,
/// and those of one capture stand in the order they were served.
pub open spec fn members_are_sound(members: Seq<MemberRow>, rows: Seq<SnapshotRow>) -> bool {
    &&& forall|i: int| 0 <= i < members.len() ==> is_placed(#[trigger] members[i], rows)
    &&& forall|i: int, j: int|
        #![trigger members[i], members[j]]
        0 <= i < j < members.len() && members[i].snapshot_id == members[j].snapshot_id
            ==> members[i].ordinal < members[j].ordinal && members[i].user_pk != members[j].user_pk
}

/// The largest id of a capture, and zero where there is none.
pub open spec fn newest_capture(rows: Seq<SnapshotRow>) -> i64
    decreases rows.len(),
{
    if rows.len() == 0 {
        0
    } else if rows.last().id > newest_capture(rows.drop_last()) {
        rows.last().id
    } else {
        newest_capture(rows.drop_last())
    }
}

proof fn lemma_newest_capture(rows: Seq<SnapshotRow>)
    ensures
        newest_capture(rows) >= 0,
        forall|i: int| 0 <= i < rows.len() ==> (#[trigger] rows[i]).id <= newest_capture(rows),
    decreases rows.len(),
{
    if rows.len() > 0 {
        let rest = rows.drop_last();
        lemma_newest_capture(rest);
        assert forall|i: int| 0 <= i < rows.len() implies (#[trigger] rows[i]).id
            <= newest_capture(rows) by {
            if i < rest.len() {
                assert(rest[i] == rows[i]);
            }
        }
    }
}

fn find_newest_capture(rows: &Vec<SnapshotRow>) -> (r: i64)
    ensures
        r == newest_capture(rows@),
{
    let mut newest: i64 = 0;
    let mut i: usize = 0;
    while i < rows.len()
        invariant
            i <= rows@.len(),
            newest == newest_capture(rows@.take(i as int)),
        decreases rows@.len() - i,
    {
        assert(rows@.take(i + 1).drop_last() == rows@.take(i as int));
        if rows[i].id > newest {
            newest = rows[i].id;
        }
        i = i + 1;
    }
    assert(rows@.take(rows@.len() as int) == rows@);
    newest
}

/// Rows whose ids are the same and whose counts only grew hold the same members
/// and serve the same receipts.
proof fn lemma_still_sound(
    before: Seq<SnapshotRow>,
    after: Seq<SnapshotRow>,
    members: Seq<MemberRow>,
    marks: Seq<AccountMark>,
)
    requires
        captures_are_sound(before),
        members_are_sound(members, before),
        marks_are_sound(marks, before),
        before.len() <= after.len(),
        forall|i: int|
            0 <= i < before.len() ==> (#[trigger] after[i]).id == before[i].id
                && after[i].member_count >= before[i].member_count,
    ensures
        members_are_sound(members, after),
        marks_are_sound(marks, after),
{
    assert forall|i: int| 0 <= i < members.len() implies is_placed(#[trigger] members[i], after) by {
        assert(is_placed(members[i], before));
        let k = choose|k: int|
            0 <= k < before.len() && (#[trigger] before[k]).id == members[i].snapshot_id
                && members[i].ordinal < before[k].member_count;
        assert(after[k].id == members[i].snapshot_id);
    }
    assert forall|i: int| 0 <= i < marks.len() implies ((#[trigger] marks[i]).snapshot_id matches Some(
        id,
    ) ==> has_capture(after, id)) by {
        if marks[i].snapshot_id is Some {
            let id = marks[i].snapshot_id->0;
            assert(has_capture(before, id));
            let k = choose|k: int| 0 <= k < before.len() && (#[trigger] before[k]).id == id;
            assert(after[k].id == id);
        }
    }
}

/// The captures after one more was opened.
pub open spec fn with_capture(
    rows: Seq<SnapshotRow>,
    process: Process,
    account: Pk,
    kind: ListKind,
    declared_count: Option<u64>,
    at: i64,
) -> Seq<SnapshotRow> {
    rows.push(
        SnapshotRow {
            id: (newest_capture(rows) + 1) as i64,
            account_pk: account,
            kind,
            started_at: at,
            taken_at: None,
            member_count: 0,
            declared_count,
            pages: 0,
            requests: 0,
            resumes: 0,
            next_cursor: None,
            complete: false,
            stopped_by: None,
            claimed_by: Some(process.name),
            claimed_at: Some(at),
        },
    )
}

/// Starts a new snapshot, claimed by this process.
pub fn begin(
    store: &mut Store,
    process: &Process,
    account_pk: Pk,
    kind: ListKind,
    declared_count: Option<u64>,
) -> (r: Opened)
    requires
        old(store).is_sound(),
        newest_capture(old(store).snapshots@) < i64::MAX,
    ensures
        r.id == newest_capture(old(store).snapshots@) + 1,
        final(store).snapshots@ == with_capture(
            old(store).snapshots@,
            *process,
            account_pk,
            kind,
            declared_count,
            r.started_at,
        ),
        in_range(r.started_at as int),
        *final(store) == (Store { snapshots: final(store).snapshots, ..*old(store) }),
        final(store).is_sound(),
{
    begin_at(store, process, account_pk, kind, declared_count, now())
}

/// The same, as of a given moment.
pub fn begin_at(
    store: &mut Store,
    process: &Process,
    account_pk: Pk,
    kind: ListKind,
    declared_count: Option<u64>,
    at: i64,
) -> (r: Opened)
    requires
        old(store).is_sound(),
        newest_capture(old(store).snapshots@) < i64::MAX,
    ensures
        r.id == newest_capture(old(store).snapshots@) + 1,
        r.started_at == at,
        final(store).snapshots@ == with_capture(
            old(store).snapshots@,
            *process,
            account_pk,
            kind,
            declared_count,
            at,
        ),
        *final(store) == (Store { snapshots: final(store).snapshots, ..*old(store) }),
        final(store).is_sound(),
{
    let id: i64 = find_newest_capture(&store.snapshots) + 1;
    proof {
        lemma_newest_capture(store.snapshots@);
    }
    store.snapshots.push(
        SnapshotRow {
            id,
            account_pk,
            kind,
            started_at: at,
            taken_at: None,
            member_count: 0,
            declared_count,
            pages: 0,
            requests: 0,
            resumes: 0,
            next_cursor: None,
            complete: false,
            stopped_by: None,
            claimed_by: Some(process.name.clone()),
            claimed_at: Some(at),
        },
    );
    proof {
        lemma_still_sound(
            old(store).snapshots@,
            store.snapshots@,
            store.members@,
            store.marks@,
        );
    }
    Opened { id, started_at: at }
}

/// Whether this is the walk to go on with: the one begun last of those this
/// process may resume, and the first filed of those begun at one moment.
pub open spec fn is_next_to_resume(
    rows: Seq<SnapshotRow>,
    i: int,
    process: Process,
    account: Pk,
    kind: ListKind,
    now: i64,
) -> bool {
    &&& 0 <= i < rows.len()
    &&& rows[i].may_be_resumed(process, account, kind, now)
    &&& forall|j: int|
        0 <= j < rows.len() && (#[trigger] rows[j]).may_be_resumed(process, account, kind, now)
            ==> rows[j].started_at <= rows[i].started_at && (rows[j].started_at
            == rows[i].started_at ==> i <= j)
}

/// What looking for a walk to go on with gives back and leaves behind.
pub open spec fn resumed(
    before: Seq<SnapshotRow>,
    after: Seq<SnapshotRow>,
    found: Option<Snapshot>,
    process: Process,
    account: Pk,
    kind: ListKind,
    now: i64,
) -> bool {
    match found {
        Some(snapshot) => exists|i: int| #[trigger]
            is_next_to_resume(before, i, process, account, kind, now) && after == before.update(
                i,
                before[i].claimed(process, now),
            ) && snapshot == before[i].shown(),
        None => {
            &&& after == before
            &&& forall|j: int|
                0 <= j < before.len() ==> !(#[trigger] before[j]).may_be_resumed(
                    process,
                    account,
                    kind,
                    now,
                )
        },
    }
}

/// Looks for an interrupted walk this process may continue, and takes it.
///
/// A partial is available when nobody holds it, when this process already does,
/// or when whoever held it has not saved a page for [`CLAIM_TTL_SECS`] and is
/// taken to be gone.
pub fn resumable(store: &mut Store, process: &Process, account_pk: Pk, kind: ListKind) -> (r:
    Option<Snapshot>)
    requires
        old(store).is_sound(),
    ensures
        exists|now: i64| #[trigger]
            resumed(
                old(store).snapshots@,
                final(store).snapshots@,
                r,
                *process,
                account_pk,
                kind,
                now,
            ) && in_range(now as int),
        *final(store) == (Store { snapshots: final(store).snapshots, ..*old(store) }),
        final(store).is_sound(),
{
    let at: i64 = now();
    let r = resumable_at(store, process, account_pk, kind, at);
    assert(resumed(old(store).snapshots@, store.snapshots@, r, *process, account_pk, kind, at));
    r
}

/// The same, as of a given moment.
pub fn resumable_at(
    store: &mut Store,
    process: &Process,
    account_pk: Pk,
    kind: ListKind,
    now: i64,
) -> (r: Option<Snapshot>)
    requires
        old(store).is_sound(),
    ensures
        resumed(
            old(store).snapshots@,
            final(store).snapshots@,
            r,
            *process,
            account_pk,
            kind,
            now,
        ),
        *final(store) == (Store { snapshots: final(store).snapshots, ..*old(store) }),
        final(store).is_sound(),
{
    let mut best: Option<usize> = None;
    let mut i: usize = 0;
    let ghost rows = store.snapshots@;
    while i < store.snapshots.len()
        invariant
            *store == *old(store),
            rows == store.snapshots@,
            i <= rows.len(),
            match best {
                Some(b) => b < i && is_next_to_resume(
                    rows.take(i as int),
                    b as int,
                    *process,
                    account_pk,
                    kind,
                    now,
                ),
                None => forall|j: int|
                    0 <= j < i ==> !(#[trigger] rows[j]).may_be_resumed(
                        *process,
                        account_pk,
                        kind,
                        now,
                    ),
            },
        decreases rows.len() - i,
    {
        let row = &store.snapshots[i];
        if row.account_pk == account_pk && row.kind == kind && row.worth_resuming(now) && (
        row.free(now) || row.held_by(process)) {
            let later = match best {
                Some(b) => row.started_at > store.snapshots[b].started_at,
                None => true,
            };
            if later {
                best = Some(i);
            }
        }
        proof {
            let next = rows.take(i + 1);
            assert(next[i as int] == rows[i as int]);
            assert forall|j: int| 0 <= j < i implies #[trigger] next[j] == rows.take(i as int)[j] by {}
        }
        i = i + 1;
    }
    assert(rows.take(rows.len() as int) == rows);
    match best {
        Some(b) => {
            let found = store.snapshots[b].show();
            store.snapshots[b].claimed_by = Some(process.name.clone());
            store.snapshots[b].claimed_at = Some(now);
            proof {
                assert(store.snapshots@ == rows.update(b as int, rows[b as int].claimed(*process, now)));
                lemma_still_sound(rows, store.snapshots@, store.members@, store.marks@);
            }
            Some(found)
        },
        None => None,
    }
}

/// Whether an interrupted walk of this list could be continued by the next
/// process.
pub open spec fn could_be_continued(
    rows: Seq<SnapshotRow>,
    account: Pk,
    kind: ListKind,
    now: i64,
) -> bool {
    exists|i: int|
        0 <= i < rows.len() && (#[trigger] rows[i]).is_of(account, kind)
            && rows[i].is_worth_resuming(now) && rows[i].is_free(now)
}

/// Whether an interrupted walk could be continued: asked, not taken.
///
/// Availability is judged the way the next process will judge it, so a walk in
/// this one's own hands does not count.
pub fn is_resumable(store: &Store, account_pk: Pk, kind: ListKind) -> (r: bool)
    ensures
        exists|now: i64|
            r == #[trigger] could_be_continued(store.snapshots@, account_pk, kind, now) && in_range(
                now as int,
            ),
{
    let at: i64 = now();
    let r = is_resumable_at(store, account_pk, kind, at);
    assert(r == could_be_continued(store.snapshots@, account_pk, kind, at));
    r
}

/// The same, as of a given moment.
pub fn is_resumable_at(store: &Store, account_pk: Pk, kind: ListKind, now: i64) -> (r: bool)
    ensures
        r == could_be_continued(store.snapshots@, account_pk, kind, now),
{
    let mut i: usize = 0;
    while i < store.snapshots.len()
        invariant
            i <= store.snapshots@.len(),
            forall|j: int|
                0 <= j < i ==> !((#[trigger] store.snapshots@[j]).is_of(account_pk, kind)
                    && store.snapshots@[j].is_worth_resuming(now) && store.snapshots@[j].is_free(
                    now,
                )),
        decreases store.snapshots@.len() - i,
    {
        let row = &store.snapshots[i];
        if row.account_pk == account_pk && row.kind == kind && row.worth_resuming(now) && row.free(
            now,
        ) {
            assert(store.snapshots@[i as int].is_of(account_pk, kind));
            return true;
        }
        i = i + 1;
    }
    false
}

/// Records that an existing snapshot is being continued.
pub fn mark_resumed(store: &mut Store, id: i64)
    requires
        old(store).is_sound(),
        capture(old(store).snapshots@, id) matches Some(row) ==> row.resumes < u32::MAX,
    ensures
        final(store).snapshots@ == old(store).snapshots@.map_values(
            |row: SnapshotRow|
                if row.id == id {
                    SnapshotRow { resumes: (row.resumes + 1) as u32, ..row }
                } else {
                    row
                },
        ),
        *final(store) == (Store { snapshots: final(store).snapshots, ..*old(store) }),
        final(store).is_sound(),
{
    if let Some(i) = locate_capture(&store.snapshots, id) {
        let n: u32 = store.snapshots[i].resumes;
        store.snapshots[i].resumes = n + 1;
    }
    proof {
        let after = old(store).snapshots@.map_values(
            |row: SnapshotRow|
                if row.id == id {
                    SnapshotRow { resumes: (row.resumes + 1) as u32, ..row }
                } else {
                    row
                },
        );
        assert(store.snapshots@ =~= after);
        lemma_still_sound(old(store).snapshots@, after, store.members@, store.marks@);
    }
}

/// The captures after this process ended a walk. One that is finished, or in
/// somebody else's hands, stays as it is.
pub open spec fn closed(
    rows: Seq<SnapshotRow>,
    process: Process,
    id: i64,
    reason: StopReason,
    at: i64,
) -> Seq<SnapshotRow> {
    rows.map_values(
        |row: SnapshotRow|
            if row.id == id && !row.complete && row.is_held_by(process) {
                row.ended(reason, at)
            } else {
                row
            },
    )
}

/// Closes the snapshot. Only a full walk leaves it usable for comparison.
///
/// A finished capture is never unfinished again, and only the process that
/// holds a walk may end it. The claim is released.
pub fn close(store: &mut Store, process: &Process, id: i64, reason: StopReason)
    requires
        old(store).is_sound(),
    ensures
        exists|at: i64|
            final(store).snapshots@ == #[trigger] closed(
                old(store).snapshots@,
                *process,
                id,
                reason,
                at,
            ) && in_range(at as int),
        *final(store) == (Store { snapshots: final(store).snapshots, ..*old(store) }),
        final(store).is_sound(),
{
    let at: i64 = now();
    close_at(store, process, id, reason, at);
    assert(store.snapshots@ == closed(old(store).snapshots@, *process, id, reason, at));
}

/// The same, as of a given moment.
pub fn close_at(store: &mut Store, process: &Process, id: i64, reason: StopReason, at: i64)
    requires
        old(store).is_sound(),
    ensures
        final(store).snapshots@ == closed(old(store).snapshots@, *process, id, reason, at),
        *final(store) == (Store { snapshots: final(store).snapshots, ..*old(store) }),
        final(store).is_sound(),
{
    if let Some(i) = locate_capture(&store.snapshots, id) {
        if !store.snapshots[i].complete && store.snapshots[i].held_by(process) {
            let complete = reason.yields_complete_list();
            store.snapshots[i].complete = complete;
            store.snapshots[i].taken_at = Some(at);
            store.snapshots[i].stopped_by = Some(reason);
            if complete {
                store.snapshots[i].next_cursor = None;
            }
            store.snapshots[i].claimed_by = None;
            store.snapshots[i].claimed_at = None;
        }
    }
    proof {
        let after = closed(old(store).snapshots@, *process, id, reason, at);
        assert(store.snapshots@ =~= after);
        lemma_still_sound(old(store).snapshots@, after, store.members@, store.marks@);
    }
}

/// Whether a usable capture is at least as recent as another: taken later, or in
/// the same second and opened later.
pub open spec fn is_as_recent(a: SnapshotRow, b: SnapshotRow) -> bool {
    ||| a.taken_at->0 > b.taken_at->0
    ||| a.taken_at->0 == b.taken_at->0 && a.id >= b.id
}

/// Whether this is the most recent usable capture of its list.
pub open spec fn is_newest_usable(rows: Seq<SnapshotRow>, i: int) -> bool {
    &&& 0 <= i < rows.len()
    &&& rows[i].is_usable()
    &&& forall|j: int|
        0 <= j < rows.len() && (#[trigger] rows[j]).is_usable() && rows[j].is_of(
            rows[i].account_pk,
            rows[i].kind,
        ) ==> is_as_recent(rows[i], rows[j])
}

/// Whether a list has a usable capture.
pub open spec fn has_usable(rows: Seq<SnapshotRow>, account: Pk, kind: ListKind) -> bool {
    exists|i: int|
        0 <= i < rows.len() && (#[trigger] rows[i]).is_usable() && rows[i].is_of(account, kind)
}

/// Where the most recent usable capture of a list is.
pub fn locate_newest_usable(rows: &Vec<SnapshotRow>, account_pk: Pk, kind: ListKind) -> (r: Option<
    usize,
>)
    ensures
        match r {
            Some(i) => is_newest_usable(rows@, i as int) && rows@[i as int].is_of(account_pk, kind),
            None => !has_usable(rows@, account_pk, kind),
        },
{
    let mut best: Option<usize> = None;
    let mut i: usize = 0;
    while i < rows.len()
        invariant
            i <= rows@.len(),
            match best {
                Some(b) => {
                    &&& b < i
                    &&& rows@[b as int].is_usable()
                    &&& rows@[b as int].is_of(account_pk, kind)
                    &&& forall|j: int|
                        0 <= j < i && (#[trigger] rows@[j]).is_usable() && rows@[j].is_of(
                            account_pk,
                            kind,
                        ) ==> is_as_recent(rows@[b as int], rows@[j])
                },
                None => forall|j: int|
                    0 <= j < i ==> !((#[trigger] rows@[j]).is_usable() && rows@[j].is_of(
                        account_pk,
                        kind,
                    )),
            },
        decreases rows@.len() - i,
    {
        let row = &rows[i];
        if row.usable() && row.account_pk == account_pk && row.kind == kind {
            let later = match best {
                Some(b) => {
                    let old_best = &rows[b];
                    match (row.taken_at, old_best.taken_at) {
                        (Some(new), Some(old_time)) => new > old_time || (new == old_time && row.id
                            >= old_best.id),
                        _ => false,
                    }
                },
                None => true,
            };
            if later {
                best = Some(i);
            }
        }
        i = i + 1;
    }
    best
}

/// The most recent usable snapshot.
///
/// An incomplete one is never given back. The id breaks a tie between two walks
/// that closed inside one second, so that "the newest capture" has one answer.
pub fn latest_complete(store: &Store, account_pk: Pk, kind: ListKind) -> (r: Option<Snapshot>)
    ensures
        match r {
            Some(snapshot) => exists|i: int| #[trigger]
                is_newest_usable(store.snapshots@, i) && store.snapshots@[i].is_of(account_pk, kind)
                    && snapshot == store.snapshots@[i].shown(),
            None => !has_usable(store.snapshots@, account_pk, kind),
        },
{
    match locate_newest_usable(&store.snapshots, account_pk, kind) {
        Some(i) => {
            assert(is_newest_usable(store.snapshots@, i as int));
            Some(store.snapshots[i].show())
        },
        None => None,
    }
}

/// Whether anything has ever been captured of this list, finished or not.
///
/// A weaker question than [`latest_complete`]: a walk that stopped short is
/// nothing to compare against, but the names it saw were filed.
pub fn any_capture(store: &Store, account_pk: Pk, kind: ListKind) -> (r: bool)
    ensures
        r == exists|i: int|
            0 <= i < store.snapshots@.len() && (#[trigger] store.snapshots@[i]).is_of(
                account_pk,
                kind,
            ),
{
    let mut i: usize = 0;
    while i < store.snapshots.len()
        invariant
            i <= store.snapshots@.len(),
            forall|j: int|
                0 <= j < i ==> !(#[trigger] store.snapshots@[j]).is_of(account_pk, kind),
        decreases store.snapshots@.len() - i,
    {
        let row = &store.snapshots[i];
        if row.account_pk == account_pk && row.kind == kind {
            assert(store.snapshots@[i as int].is_of(account_pk, kind));
            return true;
        }
        i = i + 1;
    }
    false
}

/// One usable snapshot by id. A walk that stopped short is not found.
pub fn find_usable(store: &Store, id: i64) -> (r: Option<Snapshot>)
    ensures
        r == match capture(store.snapshots@, id) {
            Some(row) => if row.is_usable() {
                Some(row.shown())
            } else {
                None
            },
            None => None,
        },
{
    match locate_capture(&store.snapshots, id) {
        Some(i) => {
            if store.snapshots[i].usable() {
                Some(store.snapshots[i].show())
            } else {
                None
            }
        },
        None => None,
    }
}

/// Those in a capture, as they are known now, in the order they were served.
pub open spec fn members_of(members: Seq<MemberRow>, users: Seq<UserRow>, id: i64) -> Seq<User>
    decreases members.len(),
{
    if members.len() == 0 {
        Seq::empty()
    } else {
        let rest = members_of(members.drop_last(), users, id);
        match user_row(users, members.last().user_pk) {
            Some(row) => if members.last().snapshot_id == id {
                rest.push(row.user)
            } else {
                rest
            },
            None => rest,
        }
    }
}

/// The users in a snapshot, in the order they were served.
pub fn members(store: &Store, id: i64) -> (r: Vec<User>)
    ensures
        r@ == members_of(store.members@, store.users@, id),
{
    let mut r: Vec<User> = Vec::new();
    let mut i: usize = 0;
    while i < store.members.len()
        invariant
            i <= store.members@.len(),
            r@ == members_of(store.members@.take(i as int), store.users@, id),
        decreases store.members@.len() - i,
    {
        assert(store.members@.take(i + 1).drop_last() == store.members@.take(i as int));
        let member = store.members[i];
        if member.snapshot_id == id {
            if let Some(k) = locate(&store.users, member.user_pk) {
                r.push(store.users[k].user.clone());
            }
        }
        i = i + 1;
    }
    assert(store.members@.take(store.members@.len() as int) == store.members@);
    r
}

/// The accounts after those of a page were seen.
pub open spec fn with_users(rows: Seq<UserRow>, page: Seq<User>, at: i64) -> Seq<UserRow>
    decreases page.len(),
{
    if page.len() == 0 {
        rows
    } else {
        with_user(with_users(rows, page.drop_last(), at), page.last(), at)
    }
}

/// The history after the accounts of a page were seen.
pub open spec fn with_renames(
    history: Seq<HistoryRow>,
    rows: Seq<UserRow>,
    page: Seq<User>,
    at: i64,
) -> Seq<HistoryRow>
    decreases page.len(),
{
    if page.len() == 0 {
        history
    } else {
        with_rename(
            with_renames(history, rows, page.drop_last(), at),
            with_users(rows, page.drop_last(), at),
            page.last(),
            at,
        )
    }
}

/// The accounts of a page that renamed themselves, with the name they left.
pub open spec fn renamed_in(rows: Seq<UserRow>, page: Seq<User>, at: i64) -> Seq<(Pk, String)>
    decreases page.len(),
{
    if page.len() == 0 {
        Seq::empty()
    } else {
        let rest = renamed_in(rows, page.drop_last(), at);
        match name_left(with_users(rows, page.drop_last(), at), page.last()) {
            Some(name) => rest.push((page.last().pk, name)),
            None => rest,
        }
    }
}

/// Whether an account is in a capture.
pub open spec fn is_member(members: Seq<MemberRow>, id: i64, pk: Pk) -> bool {
    exists|i: int|
        0 <= i < members.len() && (#[trigger] members[i]).snapshot_id == id && members[i].user_pk
            == pk
}

/// The members after a page of a capture: those not in it already, each in the
/// next place. The place advances with those that go in alone.
pub open spec fn with_page(
    members: Seq<MemberRow>,
    id: i64,
    first: u64,
    page: Seq<User>,
) -> Seq<MemberRow>
    decreases page.len(),
{
    if page.len() == 0 {
        members
    } else {
        let rest = with_page(members, id, first, page.drop_last());
        if is_member(rest, id, page.last().pk) {
            rest
        } else {
            rest.push(
                MemberRow {
                    snapshot_id: id,
                    user_pk: page.last().pk,
                    ordinal: (first + rest.len() - members.len()) as u64,
                },
            )
        }
    }
}

/// The ids of those in a capture.
fn member_ids(members: &Vec<MemberRow>, id: i64) -> (set: HashSet<u64>)
    ensures
        forall|pk: Pk| #[trigger] is_member(members@, id, pk) <==> set@.contains(pk.0),
{
    broadcast use vstd::std_specs::hash::group_hash_axioms;

    let mut set: HashSet<u64> = HashSet::new();
    let mut i: usize = 0;
    while i < members.len()
        invariant
            i <= members@.len(),
            forall|pk: Pk| #[trigger]
                is_member(members@.take(i as int), id, pk) <==> set@.contains(pk.0),
        decreases members@.len() - i,
    {
        broadcast use vstd::std_specs::hash::group_hash_axioms;

        let member = members[i];
        let ghost before = set@;
        if member.snapshot_id == id {
            set.insert(member.user_pk.0);
        }
        proof {
            let (x, y) = (members@.take(i as int), members@.take(i + 1));
            assert(y == x.push(member));
            assert forall|pk: Pk| #[trigger] is_member(y, id, pk) <==> set@.contains(pk.0) by {
                lemma_one_more_member(x, member, id, pk);
            }
        }
        i = i + 1;
    }
    assert(members@.take(members@.len() as int) == members@);
    set
}

proof fn lemma_one_more_member(members: Seq<MemberRow>, member: MemberRow, id: i64, pk: Pk)
    ensures
        is_member(members.push(member), id, pk) <==> is_member(members, id, pk) || (
        member.snapshot_id == id && member.user_pk == pk),
{
    let more = members.push(member);
    if is_member(members, id, pk) {
        let i = choose|i: int|
            0 <= i < members.len() && (#[trigger] members[i]).snapshot_id == id
                && members[i].user_pk == pk;
        assert(more[i].snapshot_id == id);
    }
    if member.snapshot_id == id && member.user_pk == pk {
        assert(more[members.len() as int].snapshot_id == id);
    }
    if is_member(more, id, pk) {
        let i = choose|i: int|
            0 <= i < more.len() && (#[trigger] more[i]).snapshot_id == id && more[i].user_pk == pk;
        if i < members.len() {
            assert(members[i].snapshot_id == id);
        }
    }
}

proof fn lemma_one_rename_at_most(history: Seq<HistoryRow>, rows: Seq<UserRow>, u: User, at: i64)
    requires
        newest_entry(history) < i64::MAX,
    ensures
        newest_entry(with_rename(history, rows, u, at)) <= newest_entry(history) + 1,
{
    let more = with_rename(history, rows, u, at);
    if name_left(rows, u) is Some {
        assert(more.drop_last() == history);
    }
}

/// What a page leaves in the tables of accounts, names and members.
fn save_members(
    users: &mut Vec<UserRow>,
    history: &mut Vec<HistoryRow>,
    members: &mut Vec<MemberRow>,
    id: i64,
    first: u64,
    page: &[User],
    at: i64,
) -> (r: SavedPage)
    requires
        names_are_sound(old(users)@),
        history_is_sound(old(history)@),
        newest_entry(old(history)@) + page@.len() <= i64::MAX,
        first + page@.len() <= u64::MAX,
    ensures
        final(users)@ == with_users(old(users)@, page@, at),
        final(history)@ == with_renames(old(history)@, old(users)@, page@, at),
        final(members)@ == with_page(old(members)@, id, first, page@),
        r.added == final(members)@.len() - old(members)@.len(),
        r.added <= page@.len(),
        r.renamed@ == renamed_in(old(users)@, page@, at),
        names_are_sound(final(users)@),
        history_is_sound(final(history)@),
{
    broadcast use vstd::std_specs::hash::group_hash_axioms;

    let mut known: HashSet<u64> = member_ids(members, id);
    let mut added: usize = 0;
    let mut renamed: Vec<(Pk, String)> = Vec::new();
    let mut i: usize = 0;
    while i < page.len()
        invariant
            i <= page@.len(),
            added <= i,
            first + page@.len() <= u64::MAX,
            newest_entry(old(history)@) + page@.len() <= i64::MAX,
            newest_entry(history@) <= newest_entry(old(history)@) + i,
            names_are_sound(users@),
            history_is_sound(history@),
            users@ == with_users(old(users)@, page@.take(i as int), at),
            history@ == with_renames(old(history)@, old(users)@, page@.take(i as int), at),
            members@ == with_page(old(members)@, id, first, page@.take(i as int)),
            added == members@.len() - old(members)@.len(),
            renamed@ == renamed_in(old(users)@, page@.take(i as int), at),
            forall|pk: Pk| #[trigger] is_member(members@, id, pk) <==> known@.contains(pk.0),
        decreases page@.len() - i,
    {
        broadcast use vstd::std_specs::hash::group_hash_axioms;

        let u = &page[i];
        let ghost members_before = members@;
        proof {
            assert(page@.take(i + 1).drop_last() == page@.take(i as int));
            lemma_one_rename_at_most(history@, users@, *u, at);
        }
        if let Some(name) = upsert_into(users, history, u, at) {
            renamed.push((u.pk, name));
        }
        let pk: Pk = u.pk;
        assert(is_member(members@, id, pk) <==> known@.contains(pk.0));
        if !known.contains(&pk.0) {
            let member = MemberRow {
                snapshot_id: id,
                user_pk: pk,
                ordinal: first + added as u64,
            };
            members.push(member);
            known.insert(pk.0);
            added = added + 1;
            proof {
                assert forall|p: Pk| #[trigger] is_member(members@, id, p) <==> known@.contains(
                    p.0,
                ) by {
                    assert(is_member(members_before, id, p) || !is_member(members_before, id, p));
                    lemma_one_more_member(members_before, member, id, p);
                }
            }
        }
        i = i + 1;
    }
    assert(page@.take(page@.len() as int) == page@);
    SavedPage { added, renamed }
}

/// The members of a page find their place in the capture they are of.
proof fn lemma_page_is_sound(
    before: Seq<SnapshotRow>,
    after: Seq<SnapshotRow>,
    members: Seq<MemberRow>,
    k: int,
    page: Seq<User>,
)
    requires
        captures_are_sound(before),
        members_are_sound(members, before),
        0 <= k < before.len() == after.len(),
        before[k].member_count + page.len() <= u64::MAX,
        forall|i: int| 0 <= i < before.len() && i != k ==> #[trigger] after[i] == before[i],
        after[k].id == before[k].id,
        after[k].member_count == before[k].member_count + with_page(
            members,
            before[k].id,
            before[k].member_count,
            page,
        ).len() - members.len(),
    ensures
        members_are_sound(with_page(members, before[k].id, before[k].member_count, page), after),
    decreases page.len(),
{
    let id = before[k].id;
    let first = before[k].member_count;
    if page.len() == 0 {
        assert forall|i: int| 0 <= i < members.len() implies is_placed(
            #[trigger] members[i],
            after,
        ) by {
            assert(is_placed(members[i], before));
            let j = choose|j: int|
                0 <= j < before.len() && (#[trigger] before[j]).id == members[i].snapshot_id
                    && members[i].ordinal < before[j].member_count;
            assert(after[j].id == members[i].snapshot_id);
        }
    } else {
        let rest = with_page(members, id, first, page.drop_last());
        lemma_page_len(members, id, first, page.drop_last());
        lemma_page_len(members, id, first, page);
        let count = (first + rest.len() - members.len()) as u64;
        let mid = after.update(k, SnapshotRow { member_count: count, ..after[k] });
        lemma_page_is_sound(before, mid, members, k, page.drop_last());
        let all = with_page(members, id, first, page);
        assert forall|i: int| 0 <= i < all.len() implies is_placed(#[trigger] all[i], after) by {
            if i < rest.len() {
                assert(all[i] == rest[i]);
                assert(is_placed(rest[i], mid));
                let j = choose|j: int|
                    0 <= j < mid.len() && (#[trigger] mid[j]).id == rest[i].snapshot_id
                        && rest[i].ordinal < mid[j].member_count;
                assert(after[j].id == rest[i].snapshot_id);
            } else {
                assert(after[k].id == all[i].snapshot_id);
            }
        }
        assert forall|i: int, j: int|
            #![trigger all[i], all[j]]
            0 <= i < j < all.len() && all[i].snapshot_id == all[j].snapshot_id implies all[i].ordinal
            < all[j].ordinal && all[i].user_pk != all[j].user_pk by {
            assert(all[i] == rest[i]);
            if j < rest.len() {
                assert(all[j] == rest[j]);
            } else {
                assert(is_placed(rest[i], mid));
                let c = choose|c: int|
                    0 <= c < mid.len() && (#[trigger] mid[c]).id == rest[i].snapshot_id
                        && rest[i].ordinal < mid[c].member_count;
                assert(c == k) by {
                    if c != k {
                        assert(mid[c] == before[c]);
                        assert(before[c].id == before[k].id);
                    }
                }
                assert(!is_member(rest, id, page.last().pk));
                assert(rest[i].snapshot_id == id);
            }
        }
    }
}

proof fn lemma_page_len(members: Seq<MemberRow>, id: i64, first: u64, page: Seq<User>)
    ensures
        members.len() <= with_page(members, id, first, page).len() <= members.len() + page.len(),
    decreases page.len(),
{
    if page.len() > 0 {
        lemma_page_len(members, id, first, page.drop_last());
    }
}

/// The captures after a page of one was saved.
pub open spec fn page_saved(
    rows: Seq<SnapshotRow>,
    id: i64,
    added: int,
    next_cursor: Option<String>,
    at: i64,
) -> Seq<SnapshotRow> {
    rows.map_values(
        |row: SnapshotRow|
            if row.id == id {
                row.advanced(added, next_cursor, at)
            } else {
                row
            },
    )
}

/// What a page leaves behind.
pub open spec fn holds_page(
    before: Store,
    after: Store,
    saved: SavedPage,
    id: i64,
    page: Seq<User>,
    cursor: Option<&str>,
    at: i64,
) -> bool {
    &&& after.users@ == with_users(before.users@, page, at)
    &&& after.history@ == with_renames(before.history@, before.users@, page, at)
    &&& after.members@ == with_page(
        before.members@,
        id,
        capture(before.snapshots@, id)->0.member_count,
        page,
    )
    &&& exists|next: Option<String>|
        text_in(next) == str_in(cursor) && after.snapshots@ == #[trigger] page_saved(
            before.snapshots@,
            id,
            after.members@.len() - before.members@.len(),
            next,
            at,
        )
    &&& saved.added == after.members@.len() - before.members@.len()
    &&& saved.renamed@ == renamed_in(before.users@, page, at)
    &&& after == (Store {
        users: after.users,
        history: after.history,
        snapshots: after.snapshots,
        members: after.members,
        ..before
    })
}

/// The text in an optional string slice.
pub open spec fn str_in(text: Option<&str>) -> Option<Seq<char>> {
    match text {
        Some(text) => Some(text@),
        None => None,
    }
}

pub fn own_text(text: Option<&str>) -> (r: Option<String>)
    ensures
        text_in(r) == str_in(text),
{
    match text {
        Some(text) => Some(text.to_owned()),
        None => None,
    }
}

/// Saves a whole page: the users, their membership in the snapshot, and the
/// cursor advance. It lands whole or not at all.
///
/// A page for a walk this process does not hold is refused, so a capture has
/// one writer.
pub fn save_page(
    store: &mut Store,
    process: &Process,
    id: i64,
    page: &[User],
    cursor: Option<&str>,
) -> (r: Result<SavedPage, StoreError>)
    requires
        old(store).is_sound(),
        newest_entry(old(store).history@) + page@.len() <= i64::MAX,
        capture(old(store).snapshots@, id) matches Some(row) ==> row.has_room(page@.len()),
    ensures
        match r {
            Ok(saved) => {
                &&& capture(old(store).snapshots@, id) is Some
                &&& capture(old(store).snapshots@, id)->0.is_held_by(*process)
                &&& exists|at: i64| #[trigger]
                    holds_page(*old(store), *final(store), saved, id, page@, cursor, at)
                        && in_range(at as int)
            },
            Err(StoreError::ClaimTaken) => {
                &&& capture(old(store).snapshots@, id) is Some
                &&& !capture(old(store).snapshots@, id)->0.is_held_by(*process)
                &&& *final(store) == *old(store)
            },
            Err(e) => {
                &&& e == StoreError::NoSuchRow
                &&& capture(old(store).snapshots@, id) is None
                &&& *final(store) == *old(store)
            },
        },
        final(store).is_sound(),
{
    let at: i64 = now();
    let r = save_page_at(store, process, id, page, cursor, at);
    proof {
        if r is Ok {
            assert(holds_page(*old(store), *store, r->Ok_0, id, page@, cursor, at));
        }
    }
    r
}

/// The same, as of a given moment.
pub fn save_page_at(
    store: &mut Store,
    process: &Process,
    id: i64,
    page: &[User],
    cursor: Option<&str>,
    at: i64,
) -> (r: Result<SavedPage, StoreError>)
    requires
        old(store).is_sound(),
        newest_entry(old(store).history@) + page@.len() <= i64::MAX,
        capture(old(store).snapshots@, id) matches Some(row) ==> row.has_room(page@.len()),
    ensures
        match r {
            Ok(saved) => {
                &&& capture(old(store).snapshots@, id) is Some
                &&& capture(old(store).snapshots@, id)->0.is_held_by(*process)
                &&& holds_page(*old(store), *final(store), saved, id, page@, cursor, at)
            },
            Err(StoreError::ClaimTaken) => {
                &&& capture(old(store).snapshots@, id) is Some
                &&& !capture(old(store).snapshots@, id)->0.is_held_by(*process)
                &&& *final(store) == *old(store)
            },
            Err(e) => {
                &&& e == StoreError::NoSuchRow
                &&& capture(old(store).snapshots@, id) is None
                &&& *final(store) == *old(store)
            },
        },
        final(store).is_sound(),
{
    let k: usize = match locate_capture(&store.snapshots, id) {
        Some(k) => k,
        None => return Err(StoreError::NoSuchRow),
    };
    if !store.snapshots[k].held_by(process) {
        return Err(StoreError::ClaimTaken);
    }
    let first: u64 = store.snapshots[k].member_count;
    let ghost rows = store.snapshots@;
    let ghost members_before = store.members@;
    let saved = save_members(
        &mut store.users,
        &mut store.history,
        &mut store.members,
        id,
        first,
        page,
        at,
    );
    let next = own_text(cursor);
    let ghost next_cursor = next;
    let pages: u32 = store.snapshots[k].pages;
    let requests: u32 = store.snapshots[k].requests;
    store.snapshots[k].member_count = first + saved.added as u64;
    store.snapshots[k].pages = pages + 1;
    store.snapshots[k].requests = requests + 1;
    store.snapshots[k].next_cursor = next;
    store.snapshots[k].claimed_at = Some(at);
    proof {
        let after = page_saved(rows, id, saved.added as int, next_cursor, at);
        assert(store.snapshots@ =~= after);
        lemma_still_sound(rows, store.snapshots@, members_before, store.marks@);
        lemma_page_is_sound(rows, store.snapshots@, members_before, k as int, page@);
    }
    Ok(saved)
}

/// Whether an id is one of these.
pub open spec fn is_among(ids: Seq<i64>, id: i64) -> bool {
    exists|i: int| 0 <= i < ids.len() && #[trigger] ids[i] == id
}

fn among(ids: &[i64], id: i64) -> (r: bool)
    ensures
        r == is_among(ids@, id),
{
    let mut i: usize = 0;
    while i < ids.len()
        invariant
            i <= ids@.len(),
            forall|j: int| 0 <= j < i ==> #[trigger] ids@[j] != id,
        decreases ids@.len() - i,
    {
        if ids[i] == id {
            assert(ids@[i as int] == id);
            return true;
        }
        i = i + 1;
    }
    false
}

/// A receipt after captures were removed: one for a capture that is gone stays,
/// for none.
pub open spec fn unlinked(mark: AccountMark, ids: Seq<i64>) -> AccountMark {
    match mark.snapshot_id {
        Some(id) => if is_among(ids, id) {
            AccountMark { snapshot_id: None, ..mark }
        } else {
            mark
        },
        None => mark,
    }
}

/// Removes captures. Their members go with them, and the receipts for them stay
/// behind, for no capture.
pub fn delete_snapshots(store: &mut Store, ids: &[i64])
    requires
        old(store).is_sound(),
    ensures
        final(store).snapshots@ == old(store).snapshots@.filter(
            |row: SnapshotRow| !is_among(ids@, row.id),
        ),
        final(store).members@ == old(store).members@.filter(
            |member: MemberRow| !is_among(ids@, member.snapshot_id),
        ),
        final(store).marks@ == old(store).marks@.map_values(
            |mark: AccountMark| unlinked(mark, ids@),
        ),
        *final(store) == (Store {
            snapshots: final(store).snapshots,
            members: final(store).members,
            marks: final(store).marks,
            ..*old(store)
        }),
        final(store).is_sound(),
{
    drop_captures(&mut store.snapshots, ids);
    drop_members(&mut store.members, ids);
    unlink_marks(&mut store.marks, ids);
    proof {
        lemma_removal_is_sound(*old(store), *store, ids@);
    }
}

fn drop_captures(rows: &mut Vec<SnapshotRow>, ids: &[i64])
    ensures
        final(rows)@ == old(rows)@.filter(|row: SnapshotRow| !is_among(ids@, row.id)),
{
    let mut all: Vec<SnapshotRow> = Vec::new();
    std::mem::swap(&mut all, rows);
    let ghost before = all@;
    assert(rows@ == before.take(0).filter(|row: SnapshotRow| !is_among(ids@, row.id))) by {
        reveal(Seq::filter);
    }
    for row in it: all
        invariant
            it.seq() == before,
            rows@ == before.take(it.index() as int).filter(
                |row: SnapshotRow| !is_among(ids@, row.id),
            ),
    {
        proof {
            reveal(Seq::filter);
            assert(before.take(it.index() + 1).drop_last() == before.take(it.index() as int));
        }
        if !among(ids, row.id) {
            rows.push(row);
        }
    }
    assert(before.take(before.len() as int) == before);
}

fn drop_members(members: &mut Vec<MemberRow>, ids: &[i64])
    ensures
        final(members)@ == old(members)@.filter(
            |member: MemberRow| !is_among(ids@, member.snapshot_id),
        ),
{
    let mut kept: Vec<MemberRow> = Vec::new();
    let mut i: usize = 0;
    assert(kept@ == members@.take(0).filter(
        |member: MemberRow| !is_among(ids@, member.snapshot_id),
    )) by {
        reveal(Seq::filter);
    }
    while i < members.len()
        invariant
            members@ == old(members)@,
            i <= members@.len(),
            kept@ == members@.take(i as int).filter(
                |member: MemberRow| !is_among(ids@, member.snapshot_id),
            ),
        decreases members@.len() - i,
    {
        proof {
            reveal(Seq::filter);
            assert(members@.take(i + 1).drop_last() == members@.take(i as int));
        }
        let member = members[i];
        if !among(ids, member.snapshot_id) {
            kept.push(member);
        }
        i = i + 1;
    }
    assert(members@.take(members@.len() as int) == members@);
    *members = kept;
}

fn unlink_marks(marks: &mut Vec<AccountMark>, ids: &[i64])
    ensures
        final(marks)@ == old(marks)@.map_values(|mark: AccountMark| unlinked(mark, ids@)),
{
    let ghost before = marks@;
    let mut i: usize = 0;
    while i < marks.len()
        invariant
            before == old(marks)@,
            i <= marks@.len() == before.len(),
            forall|j: int| 0 <= j < i ==> #[trigger] marks@[j] == unlinked(before[j], ids@),
            forall|j: int| i <= j < before.len() ==> #[trigger] marks@[j] == before[j],
        decreases before.len() - i,
    {
        if let Some(id) = marks[i].snapshot_id {
            if among(ids, id) {
                marks[i].snapshot_id = None;
            }
        }
        i = i + 1;
    }
    assert(marks@ =~= before.map_values(|mark: AccountMark| unlinked(mark, ids@)));
}

/// Filtering keeps some rows, in their order.
pub proof fn lemma_filter_order<A>(s: Seq<A>, keep: spec_fn(A) -> bool) -> (places: Seq<int>)
    ensures
        places.len() == s.filter(keep).len(),
        forall|i: int|
            0 <= i < places.len() ==> 0 <= #[trigger] places[i] < s.len() && s.filter(keep)[i]
                == s[places[i]] && keep(s[places[i]]),
        forall|i: int, j: int|
            0 <= i < j < places.len() ==> #[trigger] places[i] < #[trigger] places[j],
        forall|k: int|
            0 <= k < s.len() && keep(#[trigger] s[k]) ==> exists|i: int|
                0 <= i < places.len() && #[trigger] places[i] == k,
    decreases s.len(),
{
    reveal(Seq::filter);
    if s.len() == 0 {
        Seq::empty()
    } else {
        let before = lemma_filter_order(s.drop_last(), keep);
        assert forall|i: int| 0 <= i < before.len() implies s.drop_last()[before[i]]
            == s[before[i]] by {}
        let places = if keep(s.last()) {
            before.push(s.len() - 1)
        } else {
            before
        };
        assert forall|k: int| 0 <= k < s.len() && keep(#[trigger] s[k]) implies exists|i: int|
            0 <= i < places.len() && #[trigger] places[i] == k by {
            if k < s.len() - 1 {
                assert(s.drop_last()[k] == s[k]);
                let i = choose|i: int| 0 <= i < before.len() && #[trigger] before[i] == k;
                assert(places[i] == k);
            } else {
                assert(places[before.len() as int] == k);
            }
        }
        assert forall|i: int| 0 <= i < places.len() implies 0 <= #[trigger] places[i] < s.len()
            && s.filter(keep)[i] == s[places[i]] && keep(s[places[i]]) by {
            if i < before.len() {
                assert(places[i] == before[i]);
                assert(s.drop_last().filter(keep)[i] == s.drop_last()[before[i]]);
            }
        }
        places
    }
}

proof fn lemma_removal_is_sound(before: Store, after: Store, ids: Seq<i64>)
    requires
        before.is_sound(),
        after.snapshots@ == before.snapshots@.filter(|row: SnapshotRow| !is_among(ids, row.id)),
        after.members@ == before.members@.filter(
            |member: MemberRow| !is_among(ids, member.snapshot_id),
        ),
        after.marks@ == before.marks@.map_values(|mark: AccountMark| unlinked(mark, ids)),
    ensures
        captures_are_sound(after.snapshots@),
        members_are_sound(after.members@, after.snapshots@),
        marks_are_sound(after.marks@, after.snapshots@),
{
    let keep_row = |row: SnapshotRow| !is_among(ids, row.id);
    let keep_member = |member: MemberRow| !is_among(ids, member.snapshot_id);
    let rows = lemma_filter_order(before.snapshots@, keep_row);
    let kept = lemma_filter_order(before.members@, keep_member);
    let old_rows = before.snapshots@;
    let new_rows = after.snapshots@;
    assert forall|i: int| 0 <= i < new_rows.len() implies (#[trigger] new_rows[i]).id >= 1 by {
        assert(new_rows[i] == old_rows[rows[i]]);
    }
    assert forall|i: int, j: int| 0 <= i < j < new_rows.len() implies (#[trigger] new_rows[i]).id < (
    #[trigger] new_rows[j]).id by {
        assert(new_rows[i] == old_rows[rows[i]]);
        assert(new_rows[j] == old_rows[rows[j]]);
        assert(rows[i] < rows[j]);
    }
    assert forall|id: i64| has_capture(old_rows, id) && !is_among(ids, id) implies has_capture(
        new_rows,
        id,
    ) by {
        let k = choose|k: int| 0 <= k < old_rows.len() && (#[trigger] old_rows[k]).id == id;
        assert(keep_row(old_rows[k]));
        let i = choose|i: int| 0 <= i < rows.len() && #[trigger] rows[i] == k;
        assert(new_rows[i].id == id);
    }
    assert forall|i: int| 0 <= i < after.members@.len() implies is_placed(
        #[trigger] after.members@[i],
        new_rows,
    ) by {
        let member = before.members@[kept[i]];
        assert(after.members@[i] == member);
        assert(keep_member(member));
        assert(is_placed(member, old_rows));
        let k = choose|k: int|
            0 <= k < old_rows.len() && (#[trigger] old_rows[k]).id == member.snapshot_id
                && member.ordinal < old_rows[k].member_count;
        assert(keep_row(old_rows[k]));
        let j = choose|j: int| 0 <= j < rows.len() && #[trigger] rows[j] == k;
        assert(new_rows[j].id == member.snapshot_id);
    }
    assert forall|i: int, j: int|
        #![trigger after.members@[i], after.members@[j]]
        0 <= i < j < after.members@.len() && after.members@[i].snapshot_id
            == after.members@[j].snapshot_id implies after.members@[i].ordinal
        < after.members@[j].ordinal && after.members@[i].user_pk != after.members@[j].user_pk by {
        assert(after.members@[i] == before.members@[kept[i]]);
        assert(after.members@[j] == before.members@[kept[j]]);
        assert(kept[i] < kept[j]);
    }
    assert forall|i: int| 0 <= i < after.marks@.len() implies ((
    #[trigger] after.marks@[i]).snapshot_id matches Some(id) ==> has_capture(new_rows, id)) by {
        assert(after.marks@[i] == unlinked(before.marks@[i], ids));
        if before.marks@[i].snapshot_id is Some {
            assert(has_capture(old_rows, before.marks@[i].snapshot_id->0));
        }
    }
    assert forall|i: int, j: int|
        #![trigger after.marks@[i], after.marks@[j]]
        0 <= i < j < after.marks@.len() implies !(after.marks@[i].account_pk
        == after.marks@[j].account_pk && after.marks@[i].kind == after.marks@[j].kind) by {
        assert(after.marks@[i] == unlinked(before.marks@[i], ids));
        assert(after.marks@[j] == unlinked(before.marks@[j], ids));
    }
}

/// A receipt after captures were removed, by what is left: one for a capture that
/// is gone stays, for none.
pub open spec fn relinked(mark: AccountMark, rows: Seq<SnapshotRow>) -> AccountMark {
    match mark.snapshot_id {
        Some(id) => if has_capture(rows, id) {
            mark
        } else {
            AccountMark { snapshot_id: None, ..mark }
        },
        None => mark,
    }
}

/// What the removal of captures does to what refers to them: the members go with
/// their capture, and the receipts stay.
pub open spec fn cascaded(before: Store, after: Store) -> bool {
    &&& after.members@ == before.members@.filter(
        |member: MemberRow| has_capture(after.snapshots@, member.snapshot_id),
    )
    &&& after.marks@ == before.marks@.map_values(
        |mark: AccountMark| relinked(mark, after.snapshots@),
    )
}

pub proof fn lemma_same_filter<A>(s: Seq<A>, p: spec_fn(A) -> bool, q: spec_fn(A) -> bool)
    requires
        forall|i: int| 0 <= i < s.len() ==> p(#[trigger] s[i]) == q(s[i]),
    ensures
        s.filter(p) == s.filter(q),
    decreases s.len(),
{
    reveal(Seq::filter);
    if s.len() > 0 {
        let rest = s.drop_last();
        assert forall|i: int| 0 <= i < rest.len() implies p(#[trigger] rest[i]) == q(rest[i]) by {
            assert(rest[i] == s[i]);
        }
        lemma_same_filter(rest, p, q);
        assert(p(s[s.len() - 1]) == q(s[s.len() - 1]));
    }
}

/// Removing the ids of some rows removes those rows, and what refers to them
/// follows.
pub proof fn lemma_removed(
    before: Store,
    after: Store,
    ids: Seq<i64>,
    doomed: spec_fn(SnapshotRow) -> bool,
)
    requires
        before.is_sound(),
        forall|i: int|
            0 <= i < before.snapshots@.len() ==> (is_among(ids, before.snapshots@[i].id)
                <==> doomed(#[trigger] before.snapshots@[i])),
        after.snapshots@ == before.snapshots@.filter(|row: SnapshotRow| !is_among(ids, row.id)),
        after.members@ == before.members@.filter(
            |member: MemberRow| !is_among(ids, member.snapshot_id),
        ),
        after.marks@ == before.marks@.map_values(|mark: AccountMark| unlinked(mark, ids)),
    ensures
        after.snapshots@ == before.snapshots@.filter(|row: SnapshotRow| !doomed(row)),
        cascaded(before, after),
{
    let old_rows = before.snapshots@;
    let new_rows = after.snapshots@;
    let keep_row = |row: SnapshotRow| !is_among(ids, row.id);
    lemma_same_filter(old_rows, keep_row, |row: SnapshotRow| !doomed(row));
    let rows = lemma_filter_order(old_rows, keep_row);
    assert forall|id: i64| has_capture(old_rows, id) implies (has_capture(new_rows, id)
        <==> !is_among(ids, id)) by {
        let k = choose|k: int| 0 <= k < old_rows.len() && (#[trigger] old_rows[k]).id == id;
        if !is_among(ids, id) {
            assert(keep_row(old_rows[k]));
            let i = choose|i: int| 0 <= i < rows.len() && #[trigger] rows[i] == k;
            assert(new_rows[i].id == id);
        }
        if has_capture(new_rows, id) {
            let i = choose|i: int| 0 <= i < new_rows.len() && (#[trigger] new_rows[i]).id == id;
            assert(new_rows[i] == old_rows[rows[i]]);
            assert(keep_row(old_rows[rows[i]]));
        }
    }
    assert forall|i: int| 0 <= i < before.members@.len() implies !is_among(
        ids,
        (#[trigger] before.members@[i]).snapshot_id,
    ) == has_capture(new_rows, before.members@[i].snapshot_id) by {
        let member = before.members@[i];
        assert(is_placed(member, old_rows));
        let k = choose|k: int|
            0 <= k < old_rows.len() && (#[trigger] old_rows[k]).id == member.snapshot_id
                && member.ordinal < old_rows[k].member_count;
        assert(has_capture(old_rows, member.snapshot_id));
    }
    lemma_same_filter(
        before.members@,
        |member: MemberRow| !is_among(ids, member.snapshot_id),
        |member: MemberRow| has_capture(new_rows, member.snapshot_id),
    );
    assert(after.marks@ =~= before.marks@.map_values(
        |mark: AccountMark| relinked(mark, new_rows),
    )) by {
        assert forall|i: int| 0 <= i < before.marks@.len() implies unlinked(
            #[trigger] before.marks@[i],
            ids,
        ) == relinked(before.marks@[i], new_rows) by {
            if before.marks@[i].snapshot_id is Some {
                assert(has_capture(old_rows, before.marks@[i].snapshot_id->0));
            }
        }
    }
}

/// The captures after the half-finished walks of a list were discarded.
pub open spec fn without_leftovers(
    rows: Seq<SnapshotRow>,
    process: Process,
    account: Pk,
    kind: ListKind,
    now: i64,
) -> Seq<SnapshotRow> {
    rows.filter(|row: SnapshotRow| !row.is_leftover(process, account, kind, now))
}

/// Discards half-finished walks for this account and list. Called when starting
/// a new one, so partials that no longer serve do not pile up.
///
/// Anything another process is actively writing to is left alone. A claim that
/// has gone stale is not protection.
pub fn delete_partials(store: &mut Store, process: &Process, account_pk: Pk, kind: ListKind) -> (r:
    usize)
    requires
        old(store).is_sound(),
    ensures
        exists|now: i64|
            final(store).snapshots@ == #[trigger] without_leftovers(
                old(store).snapshots@,
                *process,
                account_pk,
                kind,
                now,
            ) && in_range(now as int),
        r == old(store).snapshots@.len() - final(store).snapshots@.len(),
        cascaded(*old(store), *final(store)),
        *final(store) == (Store {
            snapshots: final(store).snapshots,
            members: final(store).members,
            marks: final(store).marks,
            ..*old(store)
        }),
        final(store).is_sound(),
{
    let at: i64 = now();
    let r: usize = delete_partials_at(store, process, account_pk, kind, at);
    assert(store.snapshots@ == without_leftovers(
        old(store).snapshots@,
        *process,
        account_pk,
        kind,
        at,
    ));
    r
}

/// The same, as of a given moment.
pub fn delete_partials_at(
    store: &mut Store,
    process: &Process,
    account_pk: Pk,
    kind: ListKind,
    now: i64,
) -> (r: usize)
    requires
        old(store).is_sound(),
    ensures
        final(store).snapshots@ == without_leftovers(
            old(store).snapshots@,
            *process,
            account_pk,
            kind,
            now,
        ),
        r == old(store).snapshots@.len() - final(store).snapshots@.len(),
        cascaded(*old(store), *final(store)),
        *final(store) == (Store {
            snapshots: final(store).snapshots,
            members: final(store).members,
            marks: final(store).marks,
            ..*old(store)
        }),
        final(store).is_sound(),
{
    let mut ids: Vec<i64> = Vec::new();
    let mut i: usize = 0;
    let count: usize = store.snapshots.len();
    let ghost rows = store.snapshots@;
    while i < store.snapshots.len()
        invariant
            *store == *old(store),
            store.is_sound(),
            rows == store.snapshots@,
            i <= rows.len(),
            forall|j: int|
                0 <= j < i ==> (is_among(ids@, rows[j].id) <==> (#[trigger] rows[j]).is_leftover(
                    *process,
                    account_pk,
                    kind,
                    now,
                )),
            forall|k: int| 0 <= k < ids@.len() ==> is_older(rows, i as int, #[trigger] ids@[k]),
        decreases rows.len() - i,
    {
        let row = &store.snapshots[i];
        let ghost before = ids@;
        if row.account_pk == account_pk && row.kind == kind && !row.complete && (row.free(now)
            || row.held_by(process)) {
            ids.push(row.id);
        }
        proof {
            lemma_one_more_id(rows, before, ids@, i as int);
        }
        i = i + 1;
    }
    delete_snapshots(store, ids.as_slice());
    proof {
        let doomed = |row: SnapshotRow| row.is_leftover(*process, account_pk, kind, now);
        let kept = |row: SnapshotRow| !row.is_leftover(*process, account_pk, kind, now);
        lemma_removed(*old(store), *store, ids@, doomed);
        lemma_same_filter(rows, |row: SnapshotRow| !doomed(row), kept);
        rows.lemma_filter_len(kept);
    }
    count - store.snapshots.len()
}

/// Whether an id is that of one of the first rows.
pub open spec fn is_older(rows: Seq<SnapshotRow>, n: int, id: i64) -> bool {
    exists|j: int| 0 <= j < n && (#[trigger] rows[j]).id == id
}

/// Taking one more row's id, or not, leaves the answer for the rows before it.
pub proof fn lemma_one_more_id(rows: Seq<SnapshotRow>, before: Seq<i64>, after: Seq<i64>, i: int)
    requires
        captures_are_sound(rows),
        0 <= i < rows.len(),
        after == before || after == before.push(rows[i].id),
        forall|k: int| 0 <= k < before.len() ==> is_older(rows, i, #[trigger] before[k]),
    ensures
        forall|j: int|
            0 <= j < i ==> is_among(after, (#[trigger] rows[j]).id) == is_among(before, rows[j].id),
        is_among(after, rows[i].id) <==> after != before,
        forall|k: int| 0 <= k < after.len() ==> is_older(rows, i + 1, #[trigger] after[k]),
{
    assert forall|j: int| 0 <= j < i implies is_among(after, (#[trigger] rows[j]).id) == is_among(
        before,
        rows[j].id,
    ) by {
        if is_among(before, rows[j].id) {
            let k = choose|k: int| 0 <= k < before.len() && #[trigger] before[k] == rows[j].id;
            assert(after[k] == rows[j].id);
        }
        if is_among(after, rows[j].id) {
            let k = choose|k: int| 0 <= k < after.len() && #[trigger] after[k] == rows[j].id;
            if k < before.len() {
                assert(before[k] == rows[j].id);
            }
        }
    }
    if after == before {
        if is_among(before, rows[i].id) {
            let k = choose|k: int| 0 <= k < before.len() && #[trigger] before[k] == rows[i].id;
            assert(is_older(rows, i, before[k]));
        }
    } else {
        assert(after[before.len() as int] == rows[i].id);
    }
    assert forall|k: int| 0 <= k < after.len() implies is_older(rows, i + 1, #[trigger] after[k]) by {
        if k < before.len() {
            assert(after[k] == before[k]);
            assert(is_older(rows, i, before[k]));
            let j = choose|j: int| 0 <= j < i && (#[trigger] rows[j]).id == before[k];
            assert(rows[j].id == after[k]);
        } else {
            assert(rows[i].id == after[k]);
        }
    }
}

} // verus!
