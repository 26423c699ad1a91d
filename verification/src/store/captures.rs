//! What holds of captures, receipts and the clearing away of what is old, said of the
//! rows themselves.
use vstd::prelude::*;
use vstd::string::*;

use crate::model::{ListKind, StopReason, User};
use crate::store::deliveries::{facts, DeliveryFacts, DeliveryState};
use crate::store::laws::{a_sighting_is_remembered, lemma_sent, served};
use crate::store::rows::{a_cursor_reads_back, every_list_reported_is_marked};
use crate::store::snapshots::{
    capture, cascaded, closed, could_be_continued, has_capture, has_usable, holds_page,
    is_as_recent, is_member, is_newest_usable, is_next_to_resume, is_placed, lemma_filter_order, members_of, newest_capture, page_saved,
    renamed_in, resumed, unlinked, with_capture, with_page, with_renames, with_users,
    without_leftovers, MemberRow, Process, SavedPage, Snapshot, SnapshotRow,
};
use crate::store::users::{lemma_no_user_row, user_row, HistoryRow, UserRow};
use crate::store::watch::{
    aged, cursor_of, is_below, is_committed, is_last_run, is_marked, is_old_record, is_old_run, is_unneeded, mark_of, was_sent, with_sent,
    without_old_reports, AccountMark, Queued, RunRow, SentRename, TOO_OLD,
};
use crate::store::Store;
use crate::Pk;

verus! {

/// A capture that was begun is unfinished and empty, of its list, in the hands of the
/// process that began it, and has an id of its own. The others are as they were.
pub proof fn a_new_capture_is_empty(
    rows: Seq<SnapshotRow>,
    process: Process,
    account: Pk,
    kind: ListKind,
    declared: Option<u64>,
    at: i64,
)
    requires
        newest_capture(rows) < i64::MAX,
    ensures
        ({
            let after = with_capture(rows, process, account, kind, declared, at);
            let made = after.last();
            &&& after.len() == rows.len() + 1
            &&& after.drop_last() == rows
            &&& made.account_pk == account
            &&& made.kind == kind
            &&& made.started_at == at
            &&& made.declared_count == declared
            &&& !made.complete
            &&& made.taken_at is None
            &&& made.stopped_by is None
            &&& made.next_cursor is None
            &&& made.member_count == 0 && made.pages == 0 && made.requests == 0
            &&& made.claimed_by is Some && made.claimed_by->0@ == process.name@
            &&& made.claimed_at == Some(at)
            &&& forall|i: int| 0 <= i < rows.len() ==> (#[trigger] rows[i]).id < made.id
        }),
{
    lemma_ids_below(rows);
    let after = with_capture(rows, process, account, kind, declared, at);
    assert(after.drop_last() =~= rows);
}

proof fn lemma_ids_below(rows: Seq<SnapshotRow>)
    ensures
        newest_capture(rows) >= 0,
        forall|i: int| 0 <= i < rows.len() ==> (#[trigger] rows[i]).id <= newest_capture(rows),
    decreases rows.len(),
{
    if rows.len() > 0 {
        let rest = rows.drop_last();
        lemma_ids_below(rest);
        assert forall|i: int| 0 <= i < rows.len() implies (#[trigger] rows[i]).id
            <= newest_capture(rows) by {
            if i < rest.len() {
                assert(rest[i] == rows[i]);
            }
        }
    }
}

/// The capture a comparison rests on was walked to its end, and none of its list that was
/// is more recent. A list has none only when none of its walks came to an end.
pub proof fn the_newest_finished_capture(
    rows: Seq<SnapshotRow>,
    i: int,
    j: int,
    account: Pk,
    kind: ListKind,
)
    requires
        0 <= j < rows.len(),
        rows[j].account_pk == account,
        rows[j].kind == kind,
        rows[j].complete,
        rows[j].taken_at is Some,
    ensures
        has_usable(rows, account, kind),
        is_newest_usable(rows, i) && rows[i].account_pk == account && rows[i].kind == kind ==> {
            &&& rows[i].complete
            &&& rows[i].taken_at is Some
            &&& rows[i].taken_at->0 > rows[j].taken_at->0 || (rows[i].taken_at->0
                == rows[j].taken_at->0 && rows[i].id >= rows[j].id)
        },
{
    assert(rows[j].is_usable() && rows[j].is_of(account, kind));
}

/// Nothing is compared with a walk that did not come to its end.
pub proof fn an_unfinished_capture_is_not_compared_with(
    rows: Seq<SnapshotRow>,
    account: Pk,
    kind: ListKind,
    i: int,
)
    requires
        forall|j: int|
            0 <= j < rows.len() && (#[trigger] rows[j]).account_pk == account && rows[j].kind
                == kind ==> !rows[j].complete || rows[j].taken_at is None,
    ensures
        !has_usable(rows, account, kind),
        is_newest_usable(rows, i) ==> rows[i].account_pk != account || rows[i].kind != kind,
{
    if has_usable(rows, account, kind) {
        let k = choose|k: int|
            0 <= k < rows.len() && (#[trigger] rows[k]).is_usable() && rows[k].is_of(account, kind);
        assert(rows[k].account_pk == account);
    }
}

/// A walk that stopped short less than a quarter of an hour after it began can be gone on
/// with from its cursor: by whoever holds it, and by anybody once it was let go or has been
/// quiet for more than five minutes.
pub proof fn a_walk_that_stopped_short_can_be_gone_on_with(
    row: SnapshotRow,
    process: Process,
    now: i64,
)
    requires
        !row.complete,
        row.next_cursor is Some,
        now - row.started_at <= 900,
        row.claimed_by is None || row.claimed_at is None || now - row.claimed_at->0 > 300
            || row.claimed_by->0@ == process.name@,
    ensures
        row.may_be_resumed(process, row.account_pk, row.kind, now),
{
}

/// A walk that is over, that has nowhere to go on from, that began too long ago, that is of
/// another list or that another process is busy with is not gone on with.
pub proof fn a_walk_that_is_not_gone_on_with(
    row: SnapshotRow,
    process: Process,
    account: Pk,
    kind: ListKind,
    now: i64,
)
    requires
        ({
            ||| row.complete
            ||| row.next_cursor is None
            ||| now - row.started_at > 900
            ||| row.account_pk != account
            ||| row.kind != kind
            ||| row.claimed_by is Some && row.claimed_by->0@ != process.name@ && row.claimed_at
                is Some && now - row.claimed_at->0 <= 300
        }),
    ensures
        !row.may_be_resumed(process, account, kind, now),
{
}

/// A walk that nobody is busy with could be continued.
pub proof fn a_walk_nobody_is_busy_with_could_be_continued(
    rows: Seq<SnapshotRow>,
    i: int,
    now: i64,
)
    requires
        0 <= i < rows.len(),
        !rows[i].complete,
        rows[i].next_cursor is Some,
        now - rows[i].started_at <= 900,
        rows[i].claimed_by is None || rows[i].claimed_at is None || now - rows[i].claimed_at->0
            > 300,
    ensures
        could_be_continued(rows, rows[i].account_pk, rows[i].kind, now),
{
    assert(rows[i].is_of(rows[i].account_pk, rows[i].kind));
}

/// No list whose walks are all over, or have nowhere to go on from, or began too long ago,
/// or are in somebody's hands could be continued.
pub proof fn a_list_that_could_not_be_continued(
    rows: Seq<SnapshotRow>,
    account: Pk,
    kind: ListKind,
    now: i64,
)
    requires
        forall|i: int|
            0 <= i < rows.len() && (#[trigger] rows[i]).account_pk == account && rows[i].kind
                == kind ==> {
                ||| rows[i].complete
                ||| rows[i].next_cursor is None
                ||| now - rows[i].started_at > 900
                ||| rows[i].claimed_by is Some && rows[i].claimed_at is Some && now
                    - rows[i].claimed_at->0 <= 300
            },
    ensures
        !could_be_continued(rows, account, kind, now),
{
    if could_be_continued(rows, account, kind, now) {
        let i = choose|i: int|
            0 <= i < rows.len() && (#[trigger] rows[i]).is_of(account, kind)
                && rows[i].is_worth_resuming(now) && rows[i].is_free(now);
        assert(rows[i].account_pk == account);
    }
}

/// Where a walk of a list can be gone on with, one is handed out: the one that began last.
/// It is in the hands of the process that asked from then on, and nothing else of it and
/// no other capture changes.
pub proof fn the_walk_that_began_last_is_handed_out(
    before: Seq<SnapshotRow>,
    after: Seq<SnapshotRow>,
    found: Option<Snapshot>,
    process: Process,
    account: Pk,
    kind: ListKind,
    now: i64,
    j: int,
) -> (i: int)
    requires
        resumed(before, after, found, process, account, kind, now),
        0 <= j < before.len(),
        before[j].may_be_resumed(process, account, kind, now),
    ensures
        found is Some,
        0 <= i < before.len(),
        found->0.id == before[i].id,
        found->0.started_at == before[i].started_at,
        found->0.next_cursor == before[i].next_cursor,
        found->0.member_count == before[i].member_count,
        found->0.account_pk == account,
        found->0.kind == kind,
        before[j].started_at <= found->0.started_at,
        after.len() == before.len(),
        after[i].claimed_by is Some && after[i].claimed_by->0@ == process.name@,
        after[i].claimed_at == Some(now),
        after[i].next_cursor == before[i].next_cursor,
        after[i].member_count == before[i].member_count,
        after[i].complete == before[i].complete,
        forall|k: int| 0 <= k < before.len() && k != i ==> #[trigger] after[k] == before[k],
{
    let i = choose|i: int| #[trigger]
        is_next_to_resume(before, i, process, account, kind, now) && after == before.update(
            i,
            before[i].claimed(process, now),
        ) && found->0 == before[i].shown();
    i
}

/// A process that ends its own walk leaves it finished when it reached the end, and a
/// partial with its cursor when it did not, let go either way and with the members it has.
pub proof fn a_walk_is_ended_by_its_holder(
    rows: Seq<SnapshotRow>,
    process: Process,
    i: int,
    reason: StopReason,
    at: i64,
)
    requires
        0 <= i < rows.len(),
        !rows[i].complete,
        rows[i].claimed_by is Some && rows[i].claimed_by->0@ == process.name@,
    ensures
        ({
            let after = closed(rows, process, rows[i].id, reason, at)[i];
            &&& after.complete <==> reason == StopReason::Completed
            &&& after.taken_at == Some(at)
            &&& after.stopped_by == Some(reason)
            &&& after.claimed_by is None && after.claimed_at is None
            &&& reason != StopReason::Completed ==> after.next_cursor == rows[i].next_cursor
            &&& reason == StopReason::Completed ==> after.next_cursor is None
            &&& after.id == rows[i].id
            &&& after.account_pk == rows[i].account_pk && after.kind == rows[i].kind
            &&& after.started_at == rows[i].started_at
            &&& after.member_count == rows[i].member_count
            &&& after.declared_count == rows[i].declared_count
            &&& after.pages == rows[i].pages && after.requests == rows[i].requests
        }),
{
}

/// Ending one walk leaves every other capture alone, and so does ending one that is over or
/// in the hands of somebody else.
pub proof fn nobody_ends_the_walk_of_another(
    rows: Seq<SnapshotRow>,
    process: Process,
    id: i64,
    reason: StopReason,
    at: i64,
    i: int,
)
    requires
        0 <= i < rows.len(),
        rows[i].id != id || rows[i].complete || rows[i].claimed_by is None
            || rows[i].claimed_by->0@ != process.name@,
    ensures
        closed(rows, process, id, reason, at).len() == rows.len(),
        closed(rows, process, id, reason, at)[i] == rows[i],
{
}

/// A page counts the members it added, itself and the request it took, moves the cursor and
/// keeps the claim fresh. Nothing else of its capture changes.
pub proof fn a_page_is_counted(
    rows: Seq<SnapshotRow>,
    i: int,
    added: int,
    next: Option<String>,
    at: i64,
)
    requires
        0 <= i < rows.len(),
        0 <= added && rows[i].member_count + added <= u64::MAX,
        rows[i].pages < u32::MAX,
        rows[i].requests < u32::MAX,
    ensures
        ({
            let after = page_saved(rows, rows[i].id, added, next, at)[i];
            &&& after.member_count == rows[i].member_count + added
            &&& after.pages == rows[i].pages + 1
            &&& after.requests == rows[i].requests + 1
            &&& after.next_cursor == next
            &&& after.claimed_at == Some(at)
            &&& after.claimed_by == rows[i].claimed_by
            &&& after.complete == rows[i].complete
            &&& after.taken_at == rows[i].taken_at
            &&& after.started_at == rows[i].started_at
            &&& after.id == rows[i].id
            &&& after.account_pk == rows[i].account_pk && after.kind == rows[i].kind
            &&& after.declared_count == rows[i].declared_count
            &&& after.resumes == rows[i].resumes
        }),
{
}

/// The members of a capture are read in the order they were served, as they are known now.
pub proof fn members_are_read_in_the_order_they_were_served(
    members: Seq<MemberRow>,
    users: Seq<UserRow>,
    id: i64,
)
    requires
        forall|i: int|
            0 <= i < members.len() && (#[trigger] members[i]).snapshot_id == id ==> user_row(
                users,
                members[i].user_pk,
            ) is Some,
    ensures
        members_of(members, users, id).len() == served(members, id).len(),
        forall|k: int|
            0 <= k < served(members, id).len() ==> (#[trigger] members_of(members, users, id)[k]).pk
                == served(members, id)[k] && user_row(users, served(members, id)[k]) is Some
                && user_row(users, served(members, id)[k])->0.user == members_of(
                members,
                users,
                id,
            )[k],
    decreases members.len(),
{
    if members.len() > 0 {
        let rest = members.drop_last();
        assert forall|i: int|
            0 <= i < rest.len() && (#[trigger] rest[i]).snapshot_id == id implies user_row(
            users,
            rest[i].user_pk,
        ) is Some by {
            assert(members[i] == rest[i]);
        }
        members_are_read_in_the_order_they_were_served(rest, users, id);
        let last = members[members.len() - 1];
        lemma_no_user_row(users, last.user_pk);
    }
}

/// The members of a capture are those filed under it, in the order they were filed.
pub proof fn who_is_filed_is_served(members: Seq<MemberRow>, id: i64, i: int) -> (k: int)
    requires
        0 <= i < members.len(),
        members[i].snapshot_id == id,
    ensures
        0 <= k < served(members, id).len(),
        k <= i,
        served(members, id)[k] == members[i].user_pk,
    decreases members.len(),
{
    let rest = members.drop_last();
    if i < rest.len() {
        assert(rest[i] == members[i]);
        who_is_filed_is_served(rest, id, i)
    } else {
        lemma_served_len(rest, id);
        served(rest, id).len() as int
    }
}

proof fn lemma_served_len(members: Seq<MemberRow>, id: i64)
    ensures
        served(members, id).len() <= members.len(),
    decreases members.len(),
{
    if members.len() > 0 {
        lemma_served_len(members.drop_last(), id);
    }
}

/// Everybody on a page is known afterwards, as of the moment of the page and under the name
/// they were last served with on it. Nobody else changes.
pub proof fn everybody_on_a_page_is_known(
    rows: Seq<UserRow>,
    page: Seq<User>,
    at: i64,
    i: int,
    other: Pk,
)
    requires
        0 <= i < page.len(),
        forall|j: int| i < j < page.len() ==> (#[trigger] page[j]).pk != page[i].pk,
        forall|j: int| 0 <= j < page.len() ==> (#[trigger] page[j]).pk != other,
    ensures
        user_row(with_users(rows, page, at), page[i].pk) is Some,
        user_row(with_users(rows, page, at), page[i].pk)->0.user.username == page[i].username,
        user_row(with_users(rows, page, at), page[i].pk)->0.last_seen == at,
        user_row(with_users(rows, page, at), other) == user_row(rows, other),
{
    lemma_not_on_the_page(rows, page, at, other);
    lemma_on_the_page(rows, page, at, i, other);
}

pub proof fn lemma_not_on_the_page(rows: Seq<UserRow>, page: Seq<User>, at: i64, other: Pk)
    requires
        forall|j: int| 0 <= j < page.len() ==> (#[trigger] page[j]).pk != other,
    ensures
        user_row(with_users(rows, page, at), other) == user_row(rows, other),
    decreases page.len(),
{
    if page.len() > 0 {
        let rest = page.drop_last();
        assert forall|j: int| 0 <= j < rest.len() implies (#[trigger] rest[j]).pk != other by {
            assert(page[j].pk != other);
        }
        lemma_not_on_the_page(rows, rest, at, other);
        assert(page[page.len() - 1].pk != other);
        a_sighting_is_remembered(with_users(rows, rest, at), page.last(), at, other);
    }
}

proof fn lemma_on_the_page(rows: Seq<UserRow>, page: Seq<User>, at: i64, i: int, other: Pk)
    requires
        0 <= i < page.len(),
        forall|j: int| i < j < page.len() ==> (#[trigger] page[j]).pk != page[i].pk,
        forall|j: int| 0 <= j < page.len() ==> (#[trigger] page[j]).pk != other,
    ensures
        user_row(with_users(rows, page, at), page[i].pk) is Some,
        user_row(with_users(rows, page, at), page[i].pk)->0.user.username == page[i].username,
        user_row(with_users(rows, page, at), page[i].pk)->0.last_seen == at,
    decreases page.len(),
{
    let rest = page.drop_last();
    let before = with_users(rows, rest, at);
    let last = page.last();
    if i == page.len() - 1 {
        a_sighting_is_remembered(before, last, at, other);
    } else {
        assert forall|j: int| i < j < rest.len() implies (#[trigger] rest[j]).pk != rest[i].pk by {
            assert(page[j].pk != page[i].pk);
        }
        assert forall|j: int| 0 <= j < rest.len() implies (#[trigger] rest[j]).pk != other by {
            assert(page[j].pk != other);
        }
        lemma_on_the_page(rows, rest, at, i, other);
        assert(page[page.len() - 1].pk != page[i].pk);
        a_sighting_is_remembered(before, last, at, page[i].pk);
    }
}

/// A receipt outlives its capture: it stays for the list and the moment it was made for,
/// and only what it pointed at is gone. One for another capture does not change.
pub proof fn a_receipt_outlives_its_capture(mark: AccountMark, ids: Seq<i64>)
    ensures
        unlinked(mark, ids).account_pk == mark.account_pk,
        unlinked(mark, ids).kind == mark.kind,
        unlinked(mark, ids).compared_at == mark.compared_at,
        mark.snapshot_id matches Some(id) ==> unlinked(mark, ids).snapshot_id == if ids.contains(
            id,
        ) {
            None
        } else {
            Some(id)
        },
        mark.snapshot_id is None ==> unlinked(mark, ids).snapshot_id is None,
{
    if let Some(id) = mark.snapshot_id {
        if ids.contains(id) {
            let i = choose|i: int| 0 <= i < ids.len() && ids[i] == id;
            assert(ids[i] == id);
        }
    }
}

/// Once captures are removed, the members that are left are those of captures that are
/// left, and the receipts are as many as they were, for the same lists and moments.
pub proof fn what_refers_to_a_capture_goes_with_it(before: Store, after: Store, i: int)
    requires
        cascaded(before, after),
    ensures
        after.marks@.len() == before.marks@.len(),
        0 <= i < after.marks@.len() ==> {
            &&& after.marks@[i].account_pk == before.marks@[i].account_pk
            &&& after.marks@[i].kind == before.marks@[i].kind
            &&& after.marks@[i].compared_at == before.marks@[i].compared_at
        },
        0 <= i < before.members@.len() ==> (after.members@.contains(before.members@[i])
            <==> has_capture(after.snapshots@, before.members@[i].snapshot_id)),
{
    if 0 <= i < before.members@.len() {
        let keep = |member: MemberRow| has_capture(after.snapshots@, member.snapshot_id);
        let places = lemma_filter_order(before.members@, keep);
        if keep(before.members@[i]) {
            let k = choose|k: int| 0 <= k < places.len() && #[trigger] places[k] == i;
            assert(after.members@[k] == before.members@[i]);
        }
        if after.members@.contains(before.members@[i]) {
            let k = choose|k: int|
                0 <= k < after.members@.len() && after.members@[k] == before.members@[i];
            assert(keep(before.members@[places[k]]));
        }
    }
}

/// A capture stays where half-finished walks are cleared away, unless it is an unfinished
/// one of that list that nobody else has saved to in the last five minutes.
pub proof fn only_what_nobody_is_busy_with_is_cleared(
    rows: Seq<SnapshotRow>,
    process: Process,
    account: Pk,
    kind: ListKind,
    now: i64,
    i: int,
)
    requires
        0 <= i < rows.len(),
    ensures
        without_leftovers(rows, process, account, kind, now).contains(rows[i]) <==> {
            ||| rows[i].complete
            ||| rows[i].account_pk != account
            ||| rows[i].kind != kind
            ||| rows[i].claimed_by is Some && rows[i].claimed_by->0@ != process.name@
                && rows[i].claimed_at is Some && now - rows[i].claimed_at->0 <= 300
        },
{
    let keep = |row: SnapshotRow| !row.is_leftover(process, account, kind, now);
    lemma_kept(rows, keep, i);
}

/// A filter keeps what it is meant to.
proof fn lemma_kept<A>(rows: Seq<A>, keep: spec_fn(A) -> bool, i: int)
    requires
        0 <= i < rows.len(),
    ensures
        rows.filter(keep).contains(rows[i]) <==> keep(rows[i]),
{
    let places = lemma_filter_order(rows, keep);
    if keep(rows[i]) {
        let k = choose|k: int| 0 <= k < places.len() && #[trigger] places[k] == i;
        assert(rows.filter(keep)[k] == rows[i]);
    }
    if rows.filter(keep).contains(rows[i]) {
        let k = choose|k: int| 0 <= k < rows.filter(keep).len() && rows.filter(keep)[k] == rows[i];
        assert(keep(rows[places[k]]));
    }
}

/// A finished capture goes once it is more than thirty days old, no receipt is for it, and
/// its list has a more recent finished one. Until then it stays.
pub proof fn an_old_capture_goes(
    rows: Seq<SnapshotRow>,
    marks: Seq<AccountMark>,
    i: int,
    newer: int,
    now: i64,
)
    requires
        0 <= i < rows.len(),
        0 <= newer < rows.len(),
        rows[i].complete && rows[i].taken_at is Some,
        rows[newer].complete && rows[newer].taken_at is Some,
        rows[newer].account_pk == rows[i].account_pk && rows[newer].kind == rows[i].kind,
        rows[newer].taken_at->0 > rows[i].taken_at->0,
        forall|k: int|
            0 <= k < marks.len() ==> (#[trigger] marks[k]).snapshot_id != Some(rows[i].id),
    ensures
        rows.filter(|row: SnapshotRow| !is_unneeded(rows, marks, row, now)).contains(rows[i])
            <==> now - rows[i].taken_at->0 <= 2_592_000,
{
    let kept = |row: SnapshotRow| !is_unneeded(rows, marks, row, now);
    lemma_kept(rows, kept, i);
    assert(rows[newer].is_usable() && rows[newer].is_of(rows[i].account_pk, rows[i].kind));
}

/// A report still owed a day after it was queued is given up on at that moment, with what
/// was last said of it or that it grew too old. Every other report is as it was.
pub proof fn a_report_grows_too_old(row: DeliveryFacts, now: i64)
    ensures
        row.state == DeliveryState::Pending && now - row.created_at > 86_400 ==> {
            let after = aged(row, now);
            &&& after.state == DeliveryState::Expired
            &&& after.settled_at == Some(now)
            &&& after.next_try_at is None
            &&& row.last_error is Some ==> after.last_error == row.last_error
            &&& row.last_error is None ==> after.last_error == Some(TOO_OLD@)
            &&& after.id == row.id && after.run_id == row.run_id && after.body == row.body
            &&& after.attempts == row.attempts && after.created_at == row.created_at
        },
        row.state != DeliveryState::Pending || now - row.created_at <= 86_400 ==> aged(row, now)
            == row,
{
}

/// A settled report is kept for seven days after it was settled and goes then.
pub proof fn a_settled_report_is_kept_for_a_week(rows: Seq<DeliveryFacts>, i: int, now: i64)
    requires
        0 <= i < rows.len(),
        rows[i].state != DeliveryState::Pending,
        rows[i].settled_at is Some,
    ensures
        without_old_reports(rows, now).contains(rows[i]) ==> now - rows[i].settled_at->0
            <= 604_800,
        now - rows[i].settled_at->0 <= 604_800 ==> without_old_reports(rows, now).contains(rows[i]),
{
    let mid = rows.map_values(|row: DeliveryFacts| aged(row, now));
    let kept = |row: DeliveryFacts| !is_old_record(row, now);
    assert(mid[i] == rows[i]);
    lemma_kept(mid, kept, i);
}

/// A run is kept for thirty days and goes then, unless it is the last of its account.
pub proof fn an_old_run_goes(runs: Seq<RunRow>, i: int, later: int, now: i64)
    requires
        0 <= i < runs.len(),
        0 <= later < runs.len(),
        runs[later].run.account_pk == runs[i].run.account_pk,
        runs[later].run.started_at > runs[i].run.started_at,
    ensures
        runs.filter(|row: RunRow| !is_old_run(runs, row, now)).contains(runs[i]) <==> now
            - runs[i].run.started_at <= 2_592_000,
{
    let kept = |row: RunRow| !is_old_run(runs, row, now);
    lemma_kept(runs, kept, i);
    assert(!is_last_run(runs, runs[i]));
}

/// The last run of an account is the one that started last, and of two that started at the
/// same moment the one recorded last.
pub proof fn the_last_run_started_last(runs: Seq<RunRow>, i: int, j: int)
    requires
        0 <= i < runs.len(),
        0 <= j < runs.len(),
        runs[i].run.account_pk == runs[j].run.account_pk,
        is_last_run(runs, runs[i]),
    ensures
        runs[j].run.started_at <= runs[i].run.started_at,
        runs[j].run.started_at == runs[i].run.started_at ==> runs[j].id <= runs[i].id,
{
}

/// A rename is filed as sent for the account whose report told of it and for no other.
pub proof fn what_was_told_is_filed(
    sent: Seq<SentRename>,
    account: Pk,
    ids: Seq<i64>,
    at: i64,
    id: i64,
    other: Pk,
)
    requires
        other != account,
    ensures
        was_sent(with_sent(sent, account, ids, at), account, id) <==> was_sent(sent, account, id)
            || ids.contains(id),
        was_sent(with_sent(sent, account, ids, at), other, id) <==> was_sent(sent, other, id),
{
    lemma_sent(sent, account, ids, at, id);
    lemma_sent_of_others(sent, account, ids, at, id, other);
}

proof fn lemma_sent_of_others(
    sent: Seq<SentRename>,
    account: Pk,
    ids: Seq<i64>,
    at: i64,
    id: i64,
    other: Pk,
)
    requires
        other != account,
    ensures
        was_sent(with_sent(sent, account, ids, at), other, id) <==> was_sent(sent, other, id),
    decreases ids.len(),
{
    if ids.len() > 0 {
        let rest = with_sent(sent, account, ids.drop_last(), at);
        let all = with_sent(sent, account, ids, at);
        lemma_sent_of_others(sent, account, ids.drop_last(), at, id, other);
        if was_sent(rest, other, id) {
            let i = choose|i: int|
                0 <= i < rest.len() && (#[trigger] rest[i]).account_pk == other
                    && rest[i].history_id == id;
            assert(all[i].account_pk == other);
        }
        if was_sent(all, other, id) {
            let i = choose|i: int|
                0 <= i < all.len() && (#[trigger] all[i]).account_pk == other && all[i].history_id
                    == id;
            assert(rest[i].account_pk == other);
        }
    }
}

/// A report moves the place its account's renames were told up to only when it says so, and
/// leaves every account, capture, run and earlier report as it was.
pub proof fn a_report_touches_only_its_own(
    before: Store,
    after: Store,
    account: Pk,
    made: Seq<(ListKind, i64)>,
    at: i64,
    cursor: Option<i64>,
    renames: Seq<i64>,
    delivery: Option<Queued<'_>>,
    i: int,
)
    requires
        is_committed(before, after, account, made, at, cursor, renames, delivery),
    ensures
        cursor is None ==> after.cursors@ == before.cursors@,
        after.users@ == before.users@,
        after.history@ == before.history@,
        after.snapshots@ == before.snapshots@,
        after.members@ == before.members@,
        after.runs@ == before.runs@,
        delivery is None ==> after.deliveries@.len() == before.deliveries@.len(),
        delivery is Some ==> after.deliveries@.len() == before.deliveries@.len() + 1,
        0 <= i < before.deliveries@.len() ==> after.deliveries@[i]@ == before.deliveries@[i]@,
{
    let a = facts(after.deliveries@);
    let b = facts(before.deliveries@);
    assert(a.len() == after.deliveries@.len());
    assert(b.len() == before.deliveries@.len());
    if 0 <= i < before.deliveries@.len() {
        assert(b[i] == before.deliveries@[i]@);
        assert(a[i] == b[i]);
        assert(a[i] == after.deliveries@[i]@);
    }
}

/// A receipt points at its capture for as long as that is there, and at none afterwards.
pub proof fn a_receipt_points_at_what_is_there(before: Store, after: Store, i: int)
    requires
        cascaded(before, after),
        0 <= i < before.marks@.len(),
    ensures
        before.marks@[i].snapshot_id matches Some(id) ==> after.marks@[i].snapshot_id == if has_capture(
            after.snapshots@,
            id,
        ) {
            Some(id)
        } else {
            None
        },
        before.marks@[i].snapshot_id is None ==> after.marks@[i].snapshot_id is None,
{
}

/// Once the place an account's renames were told up to moves, what was filed for it at or below
/// that place goes, and what was filed above it or for another account stays.
pub proof fn what_is_below_the_cursor_is_let_go(
    before: Store,
    after: Store,
    account: Pk,
    made: Seq<(ListKind, i64)>,
    at: i64,
    cursor: i64,
    renames: Seq<i64>,
    delivery: Option<Queued<'_>>,
    id: i64,
    other: Pk,
)
    requires
        is_committed(before, after, account, made, at, Some(cursor), renames, delivery),
        other != account,
    ensures
        id <= cursor ==> !was_sent(after.sent@, account, id),
        was_sent(before.sent@, other, id) ==> was_sent(after.sent@, other, id),
        was_sent(after.sent@, account, id) ==> was_sent(before.sent@, account, id)
            || renames.contains(id),
{
    let all = with_sent(before.sent@, account, renames, at);
    let keep = |row: SentRename| !is_below(row, account, cursor);
    let places = lemma_filter_order(all, keep);
    what_was_told_is_filed(before.sent@, account, renames, at, id, other);
    assert(after.sent@ == all.filter(keep));
    if was_sent(after.sent@, account, id) {
        let k = choose|k: int|
            0 <= k < after.sent@.len() && (#[trigger] after.sent@[k]).account_pk == account
                && after.sent@[k].history_id == id;
        assert(after.sent@[k] == all[places[k]]);
        assert(keep(all[places[k]]));
        assert(was_sent(all, account, id));
    }
    if was_sent(before.sent@, other, id) {
        let i = choose|i: int|
            0 <= i < all.len() && (#[trigger] all[i]).account_pk == other && all[i].history_id == id;
        assert(keep(all[i]));
        let k = choose|k: int| 0 <= k < places.len() && #[trigger] places[k] == i;
        assert(after.sent@[k] == all[i]);
    }
}

/// What a page files is what it tells: one entry for each account it says was renamed, with the
/// name that was left, as of the moment of the page and in the order it was served. What was
/// filed before stays.
pub proof fn what_a_page_files_is_what_it_tells(
    history: Seq<HistoryRow>,
    rows: Seq<UserRow>,
    page: Seq<User>,
    at: i64,
)
    ensures
        with_renames(history, rows, page, at).len() == history.len() + renamed_in(
            rows,
            page,
            at,
        ).len(),
        forall|i: int|
            0 <= i < history.len() ==> #[trigger] with_renames(history, rows, page, at)[i]
                == history[i],
        forall|k: int|
            0 <= k < renamed_in(rows, page, at).len() ==> {
                let told = #[trigger] renamed_in(rows, page, at)[k];
                let filed = with_renames(history, rows, page, at)[history.len() + k];
                filed.pk == told.0 && filed.username == told.1 && filed.changed_at == at
            },
    decreases page.len(),
{
    if page.len() > 0 {
        what_a_page_files_is_what_it_tells(history, rows, page.drop_last(), at);
    }
}

/// A sound store has no account twice, no member of one capture twice or out of order, no list
/// marked twice, no rename filed as sent twice and no two reports of one run. Ids grow in each
/// table, and whatever points at a capture points at one that is there.
pub proof fn what_a_sound_store_does_not_have(store: Store, i: int, j: int)
    requires
        store.is_sound(),
        0 <= i < j,
    ensures
        j < store.users@.len() ==> store.users@[i].user.pk != store.users@[j].user.pk,
        j < store.history@.len() ==> 1 <= store.history@[i].id < store.history@[j].id,
        j < store.snapshots@.len() ==> 1 <= store.snapshots@[i].id < store.snapshots@[j].id,
        j < store.runs@.len() ==> 1 <= store.runs@[i].id < store.runs@[j].id,
        j < store.deliveries@.len() ==> 1 <= store.deliveries@[i].id < store.deliveries@[j].id
            && store.deliveries@[i].run_id@ != store.deliveries@[j].run_id@,
        j < store.members@.len() && store.members@[i].snapshot_id == store.members@[j].snapshot_id
            ==> store.members@[i].user_pk != store.members@[j].user_pk && store.members@[i].ordinal
            < store.members@[j].ordinal,
        j < store.marks@.len() ==> store.marks@[i].account_pk != store.marks@[j].account_pk
            || store.marks@[i].kind != store.marks@[j].kind,
        j < store.cursors@.len() ==> store.cursors@[i].account_pk != store.cursors@[j].account_pk,
        j < store.sent@.len() ==> store.sent@[i].account_pk != store.sent@[j].account_pk
            || store.sent@[i].history_id != store.sent@[j].history_id,
        i < store.members@.len() ==> exists|k: int|
            0 <= k < store.snapshots@.len() && (#[trigger] store.snapshots@[k]).id
                == store.members@[i].snapshot_id && store.members@[i].ordinal
                < store.snapshots@[k].member_count,
        i < store.marks@.len() ==> (store.marks@[i].snapshot_id matches Some(id) ==> exists|k: int|
            0 <= k < store.snapshots@.len() && (#[trigger] store.snapshots@[k]).id == id),
{
    let reports = facts(store.deliveries@);
    if j < store.deliveries@.len() {
        assert(reports[i] == store.deliveries@[i]@);
        assert(reports[j] == store.deliveries@[j]@);
    }
    if i < store.members@.len() {
        assert(is_placed(store.members@[i], store.snapshots@));
    }
    if i < store.marks@.len() {
        assert(store.marks@[i].snapshot_id matches Some(id) ==> has_capture(store.snapshots@, id));
    }
}

/// A report lands whole: every list it spoke about is marked with the capture it named last for
/// it, the renames are told up to where it says, and the report is behind the others, owed from
/// that moment on and addressed as it was queued.
pub proof fn a_report_lands_whole(
    before: Store,
    after: Store,
    account: Pk,
    made: Seq<(ListKind, i64)>,
    at: i64,
    cursor: Option<i64>,
    renames: Seq<i64>,
    delivery: Option<Queued<'_>>,
    i: int,
    other: Pk,
    other_kind: ListKind,
)
    requires
        is_committed(before, after, account, made, at, cursor, renames, delivery),
        0 <= i < made.len(),
        forall|j: int| i < j < made.len() ==> (#[trigger] made[j]).0 != made[i].0,
        other != account,
    ensures
        mark_of(after.marks@, account, made[i].0) == Some(
            AccountMark {
                account_pk: account,
                kind: made[i].0,
                snapshot_id: Some(made[i].1),
                compared_at: at,
            },
        ),
        mark_of(after.marks@, other, other_kind) == mark_of(before.marks@, other, other_kind),
        cursor matches Some(told) ==> cursor_of(after.cursors@, account) == told,
        cursor is None ==> cursor_of(after.cursors@, account) == cursor_of(before.cursors@, account),
        cursor_of(after.cursors@, other) == cursor_of(before.cursors@, other),
        delivery matches Some(queued) ==> {
            let row = facts(after.deliveries@).last();
            &&& row.run_id == queued.run_id@
            &&& row.body == queued.body@
            &&& row.account_pk == account
            &&& row.created_at == at
            &&& row.state == DeliveryState::Pending
            &&& row.next_try_at == Some(at)
            &&& row.attempts == 0
            &&& queued.destination is None ==> row.destination is None
            &&& queued.destination is Some ==> row.destination == Some((queued.destination->0)@)
        },
{
    every_list_reported_is_marked(before.marks@, account, made, at, i, other, other_kind);
    if cursor is Some {
        a_cursor_reads_back(before.cursors@, account, cursor->0, at, other);
    }
}

/// The run of an account that started last is kept, however long ago that was, and whatever came
/// of it.
pub proof fn the_run_that_started_last_is_kept(runs: Seq<RunRow>, i: int, now: i64)
    requires
        0 <= i < runs.len(),
        forall|j: int|
            0 <= j < runs.len() && (#[trigger] runs[j]).run.account_pk == runs[i].run.account_pk
                ==> runs[j].run.started_at < runs[i].run.started_at || (runs[j].run.started_at
                == runs[i].run.started_at && runs[j].id <= runs[i].id),
    ensures
        is_last_run(runs, runs[i]),
        runs.filter(|row: RunRow| !is_old_run(runs, row, now)).contains(runs[i]),
{
    let kept = |row: RunRow| !is_old_run(runs, row, now);
    assert(is_last_run(runs, runs[i]));
    lemma_kept(runs, kept, i);
}

/// A capture is kept while a receipt points at it, while its walk did not come to an end, and
/// while its list has no more recent finished one, however old it is.
pub proof fn a_capture_that_is_needed_is_kept(
    rows: Seq<SnapshotRow>,
    marks: Seq<AccountMark>,
    i: int,
    k: int,
    now: i64,
)
    requires
        0 <= i < rows.len(),
        ({
            ||| 0 <= k < marks.len() && marks[k].snapshot_id == Some(rows[i].id)
            ||| !rows[i].complete
            ||| rows[i].taken_at is Some && forall|j: int|
                0 <= j < rows.len() && (#[trigger] rows[j]).complete && rows[j].taken_at is Some
                    && rows[j].account_pk == rows[i].account_pk && rows[j].kind == rows[i].kind
                    ==> rows[j].taken_at->0 < rows[i].taken_at->0 || (rows[j].taken_at->0
                    == rows[i].taken_at->0 && rows[j].id <= rows[i].id)
        }),
    ensures
        rows.filter(|row: SnapshotRow| !is_unneeded(rows, marks, row, now)).contains(rows[i]),
{
    let kept = |row: SnapshotRow| !is_unneeded(rows, marks, row, now);
    if 0 <= k < marks.len() && marks[k].snapshot_id == Some(rows[i].id) {
        assert(is_marked(marks, rows[i].id));
    }
    if rows[i].complete && rows[i].taken_at is Some && is_unneeded(rows, marks, rows[i], now) {
        let j = choose|j: int|
            0 <= j < rows.len() && (#[trigger] rows[j]).is_usable() && rows[j].is_of(
                rows[i].account_pk,
                rows[i].kind,
            ) && !is_as_recent(rows[i], rows[j]);
        assert(rows[j].complete);
    }
    lemma_kept(rows, kept, i);
}

/// A report that is still pending and no more than a day old comes through the clearing away as
/// it was.
pub proof fn a_pending_report_comes_through(rows: Seq<DeliveryFacts>, i: int, now: i64)
    requires
        0 <= i < rows.len(),
        rows[i].state == DeliveryState::Pending,
        now - rows[i].created_at <= 86_400,
    ensures
        without_old_reports(rows, now).contains(rows[i]),
{
    let mid = rows.map_values(|row: DeliveryFacts| aged(row, now));
    let kept = |row: DeliveryFacts| !is_old_record(row, now);
    assert(mid[i] == rows[i]);
    lemma_kept(mid, kept, i);
}

/// After a page is saved everybody on it is known under the name they were last served with, as
/// of that moment, and what is kept besides accounts, names, captures and members is as it was.
pub proof fn a_saved_page_is_remembered(
    before: Store,
    after: Store,
    saved: SavedPage,
    id: i64,
    page: Seq<User>,
    cursor: Option<&str>,
    at: i64,
    i: int,
    other: Pk,
)
    requires
        holds_page(before, after, saved, id, page, cursor, at),
        0 <= i < page.len(),
        forall|j: int| i < j < page.len() ==> (#[trigger] page[j]).pk != page[i].pk,
        forall|j: int| 0 <= j < page.len() ==> (#[trigger] page[j]).pk != other,
    ensures
        user_row(after.users@, page[i].pk) is Some,
        user_row(after.users@, page[i].pk)->0.user.username == page[i].username,
        user_row(after.users@, page[i].pk)->0.last_seen == at,
        user_row(after.users@, other) == user_row(before.users@, other),
        is_member(after.members@, id, page[i].pk),
        saved.renamed@.len() == after.history@.len() - before.history@.len(),
        after.marks@ == before.marks@ && after.deliveries@ == before.deliveries@,
        after.cursors@ == before.cursors@ && after.sent@ == before.sent@,
        after.runs@ == before.runs@ && after.interval_seed == before.interval_seed,
{
    everybody_on_a_page_is_known(before.users@, page, at, i, other);
    what_a_page_files_is_what_it_tells(before.history@, before.users@, page, at);
    lemma_page_is_in(
        before.members@,
        id,
        capture(before.snapshots@, id)->0.member_count,
        page,
        i,
    );
}

proof fn lemma_page_is_in(members: Seq<MemberRow>, id: i64, first: u64, page: Seq<User>, i: int)
    requires
        0 <= i < page.len(),
    ensures
        is_member(with_page(members, id, first, page), id, page[i].pk),
    decreases page.len(),
{
    let fewer = page.drop_last();
    let rest = with_page(members, id, first, fewer);
    let all = with_page(members, id, first, page);
    if i < fewer.len() {
        lemma_page_is_in(members, id, first, fewer, i);
        assert(fewer[i] == page[i]);
        let k = choose|k: int|
            0 <= k < rest.len() && (#[trigger] rest[k]).snapshot_id == id && rest[k].user_pk
                == page[i].pk;
        assert(all[k] == rest[k]);
    } else if !is_member(rest, id, page.last().pk) {
        assert(all[rest.len() as int].user_pk == page[i].pk);
    }
}

/// What is shown of a capture is what its row says.
pub proof fn what_is_shown_of_a_capture(row: SnapshotRow)
    ensures
        row.shown().id == row.id,
        row.shown().account_pk == row.account_pk && row.shown().kind == row.kind,
        row.shown().started_at == row.started_at && row.shown().taken_at == row.taken_at,
        row.shown().member_count == row.member_count,
        row.shown().declared_count == row.declared_count,
        row.shown().pages == row.pages && row.shown().next_cursor == row.next_cursor,
{
}

} // verus!
