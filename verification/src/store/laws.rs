//! What holds of the tables whatever is done to them.
use vstd::prelude::*;
use vstd::string::*;

use crate::model::{ListKind, StopReason, User};
use crate::session::text_in;
use crate::store::deliveries::{facts, has_run, is_owed, DeliveryFacts, MAX_AGE_SECS};
use crate::store::snapshots::{
    capture, closed, holds_page, is_member, is_newest_usable, is_next_to_resume,
    lemma_filter_order, resumed, str_in, with_page, MemberRow, Process, SavedPage, Snapshot,
    SnapshotRow, CLAIM_TTL_SECS, RESUME_WINDOW_SECS,
};
use crate::store::users::{
    ensured, has_user, lemma_no_user_row, lemma_user_row, merged, name_left, names_are_sound,
    user_row, with_user, HistoryRow, UserRow,
};
use crate::store::watch::{
    aged, has_mark, is_below, is_committed, is_last_run, is_marked, is_old_record, is_old_run,
    is_unneeded, is_unsurpassed, is_within, mark_of, renames_of, was_sent, with_mark, with_sent,
    without_old_reports, AccountMark, Queued, RunRow, SentRename,
};
use crate::store::Store;
use crate::watch::Rename;
use crate::Pk;

verus! {

proof fn lemma_first_user(rows: Seq<UserRow>, pk: Pk) -> (i: int)
    requires
        has_user(rows, pk),
    ensures
        0 <= i < rows.len(),
        rows[i].user.pk == pk,
        forall|j: int| 0 <= j < i ==> (#[trigger] rows[j]).user.pk != pk,
        user_row(rows, pk) == Some(rows[i]),
    decreases rows.len(),
{
    if rows.first().user.pk == pk {
        lemma_user_row(rows, pk, 0);
        0
    } else {
        let rest = rows.drop_first();
        let k = choose|k: int| 0 <= k < rows.len() && (#[trigger] rows[k]).user.pk == pk;
        assert(rest[k - 1].user.pk == pk);
        let i = lemma_first_user(rest, pk);
        assert(rows[i + 1] == rest[i]);
        assert forall|j: int| 0 <= j < i + 1 implies (#[trigger] rows[j]).user.pk != pk by {
            if j > 0 {
                assert(rest[j - 1] == rows[j]);
            }
        }
        lemma_user_row(rows, pk, i + 1);
        i + 1
    }
}

/// Rows that keep their accounts keep them in their places.
proof fn lemma_same_places(before: Seq<UserRow>, after: Seq<UserRow>, pk: Pk) -> (i: int)
    requires
        has_user(before, pk),
        before.len() <= after.len(),
        forall|j: int| 0 <= j < before.len() ==> (#[trigger] after[j]).user.pk == before[j].user.pk,
    ensures
        0 <= i < before.len(),
        user_row(before, pk) == Some(before[i]),
        user_row(after, pk) == Some(after[i]),
        before[i].user.pk == pk,
{
    let i = lemma_first_user(before, pk);
    assert forall|j: int| 0 <= j < i implies (#[trigger] after[j]).user.pk != pk by {
        assert(before[j].user.pk != pk);
    }
    lemma_user_row(after, pk, i);
    i
}

/// A sighting that does not know the name never overwrites one, nor anything else
/// that is known of any account.
pub proof fn a_run_that_does_not_know_the_name_never_overwrites_one(
    before: Seq<UserRow>,
    after: Seq<UserRow>,
    seen: Pk,
    at: i64,
    pk: Pk,
)
    requires
        ensured(before, after, seen, at),
        has_user(before, pk),
    ensures
        user_row(after, pk) is Some,
        user_row(after, pk)->0.user == user_row(before, pk)->0.user,
        user_row(after, pk)->0.first_seen == user_row(before, pk)->0.first_seen,
{
    if !has_user(before, seen) {
        assert forall|j: int| 0 <= j < before.len() implies (#[trigger] after[j]).user.pk
            == before[j].user.pk by {
            assert(after.drop_last()[j] == before[j]);
        }
        let i = lemma_same_places(before, after, pk);
        assert(after.drop_last()[i] == before[i]);
    } else {
        let i = lemma_same_places(before, after, pk);
    }
}

/// Learning a name for the first time is not a rename.
pub proof fn learning_a_name_for_the_first_time_is_not_a_rename(rows: Seq<UserRow>, u: User)
    requires
        user_row(rows, u.pk) matches Some(row) ==> row.user.username@.len() == 0,
    ensures
        name_left(rows, u) is None,
{
}

/// An account that was seen is known as it was seen, what the sighting did not
/// tell stays as it was, the first sighting stays put, and nobody else changes.
pub proof fn a_sighting_is_remembered(rows: Seq<UserRow>, u: User, at: i64, other: Pk)
    requires
        other != u.pk,
    ensures
        user_row(with_user(rows, u, at), u.pk) == Some(
            match user_row(rows, u.pk) {
                Some(row) => UserRow {
                    user: merged(row.user, u),
                    first_seen: row.first_seen,
                    last_seen: at,
                },
                None => UserRow { user: u, first_seen: at, last_seen: at },
            },
        ),
        user_row(with_user(rows, u, at), other) == user_row(rows, other),
{
    let after = with_user(rows, u, at);
    lemma_no_user_row(rows, u.pk);
    lemma_no_user_row(rows, other);
    lemma_no_user_row(after, other);
    if has_user(rows, u.pk) {
        let i = lemma_same_places(rows, after, u.pk);
    } else {
        assert forall|j: int| 0 <= j < rows.len() implies (#[trigger] after[j]).user.pk != u.pk by {
            assert(after[j] == rows[j]);
        }
        lemma_user_row(after, u.pk, rows.len() as int);
    }
    if has_user(rows, other) {
        let i = lemma_same_places(rows, after, other);
        assert(after[i] == rows[i]);
    } else if has_user(after, other) {
        let i = choose|i: int| 0 <= i < after.len() && (#[trigger] after[i]).user.pk == other;
        if i < rows.len() {
            assert(rows[i].user.pk == other);
        }
    }
}

/// Seeing an account again under the name it has files no rename.
pub proof fn the_same_name_again_is_not_a_rename(rows: Seq<UserRow>, u: User, again: User, at: i64)
    requires
        again.pk == u.pk,
        again.username@ == u.username@,
    ensures
        name_left(with_user(rows, u, at), again) is None,
{
    let other = if u.pk.0 == 0 {
        Pk(1)
    } else {
        Pk(0)
    };
    a_sighting_is_remembered(rows, u, at, other);
}

/// Only a walk that reached the end leaves a capture a comparison may rest on.
pub proof fn a_partial_is_never_usable(row: SnapshotRow, reason: StopReason, at: i64)
    ensures
        row.ended(reason, at).is_usable() <==> reason == StopReason::Completed,
{
}

/// A finished capture is never unfinished again, whoever closes it and why.
pub proof fn a_finished_capture_is_never_unfinished(
    rows: Seq<SnapshotRow>,
    i: int,
    process: Process,
    id: i64,
    reason: StopReason,
    at: i64,
)
    requires
        0 <= i < rows.len(),
        rows[i].complete,
    ensures
        closed(rows, process, id, reason, at)[i] == rows[i],
{
}

/// A walk has one writer: while one process holds it and keeps saving pages,
/// another can neither close it, nor take it, nor clear it away.
pub proof fn a_walk_has_one_writer(
    rows: Seq<SnapshotRow>,
    after: Seq<SnapshotRow>,
    found: Option<Snapshot>,
    i: int,
    holder: Process,
    other: Process,
    id: i64,
    account: Pk,
    kind: ListKind,
    reason: StopReason,
    now: i64,
)
    requires
        0 <= i < rows.len(),
        rows[i].is_held_by(holder),
        holder.name@ != other.name@,
        rows[i].claimed_at is Some,
        rows[i].claimed_at->0 >= now - CLAIM_TTL_SECS,
        resumed(rows, after, found, other, account, kind, now),
    ensures
        closed(rows, other, id, reason, now)[i] == rows[i],
        after[i] == rows[i],
        !rows[i].is_leftover(other, account, kind, now),
{
    if found is Some {
        let k = choose|k: int| #[trigger]
            is_next_to_resume(rows, k, other, account, kind, now) && after == rows.update(
                k,
                rows[k].claimed(other, now),
            ) && found->0 == rows[k].shown();
        assert(k != i);
    }
}

/// A walk is handed out once: until the process that took it has been quiet for
/// too long, no other may go on with it.
pub proof fn a_walk_is_handed_out_once(
    row: SnapshotRow,
    taker: Process,
    other: Process,
    account: Pk,
    kind: ListKind,
    taken: i64,
    now: i64,
)
    requires
        taker.name@ != other.name@,
        now <= taken + CLAIM_TTL_SECS,
    ensures
        !row.claimed(taker, taken).may_be_resumed(other, account, kind, now),
        row.claimed(taker, taken).is_held_by(taker),
{
}

/// There is a window in which another process can adopt a walk whose own process
/// was killed: a claim goes stale while the partial is still worth resuming.
pub proof fn a_claim_goes_stale_while_the_partial_is_worth_resuming(
    row: SnapshotRow,
    process: Process,
    now: i64,
)
    requires
        !row.complete,
        row.next_cursor is Some,
        row.claimed_at is Some,
        row.started_at <= row.claimed_at->0,
        row.claimed_at->0 < now - CLAIM_TTL_SECS,
        row.started_at >= now - RESUME_WINDOW_SECS,
    ensures
        row.may_be_resumed(process, row.account_pk, row.kind, now),
        CLAIM_TTL_SECS < RESUME_WINDOW_SECS,
{
}

/// An interrupted walk keeps its cursor, and anybody may go on with it inside the
/// window. A finished one has nothing left to go on with.
pub proof fn an_interrupted_walk_keeps_its_cursor(
    row: SnapshotRow,
    reason: StopReason,
    at: i64,
    process: Process,
    now: i64,
)
    requires
        row.next_cursor is Some,
        row.started_at >= now - RESUME_WINDOW_SECS,
    ensures
        reason != StopReason::Completed ==> row.ended(reason, at).next_cursor == row.next_cursor
            && row.ended(reason, at).may_be_resumed(process, row.account_pk, row.kind, now),
        reason == StopReason::Completed ==> row.ended(reason, at).next_cursor is None && !row.ended(
            reason,
            at,
        ).may_be_resumed(process, row.account_pk, row.kind, now),
{
}

/// The accounts in a capture, in the order they were served.
pub open spec fn served(members: Seq<MemberRow>, id: i64) -> Seq<Pk>
    decreases members.len(),
{
    if members.len() == 0 {
        Seq::empty()
    } else {
        let rest = served(members.drop_last(), id);
        if members.last().snapshot_id == id {
            rest.push(members.last().user_pk)
        } else {
            rest
        }
    }
}

/// A list with those of a page behind it who are not in it yet.
pub open spec fn grown(known: Seq<Pk>, page: Seq<User>) -> Seq<Pk>
    decreases page.len(),
{
    if page.len() == 0 {
        known
    } else {
        let rest = grown(known, page.drop_last());
        if rest.contains(page.last().pk) {
            rest
        } else {
            rest.push(page.last().pk)
        }
    }
}

proof fn lemma_served(members: Seq<MemberRow>, id: i64, pk: Pk)
    ensures
        served(members, id).contains(pk) <==> is_member(members, id, pk),
    decreases members.len(),
{
    if members.len() > 0 {
        let rest = members.drop_last();
        lemma_served(rest, id, pk);
        let all = served(members, id);
        let some = served(rest, id);
        if some.contains(pk) {
            let i = choose|i: int| 0 <= i < some.len() && some[i] == pk;
            assert(all[i] == pk);
        }
        if is_member(rest, id, pk) {
            let i = choose|i: int|
                0 <= i < rest.len() && (#[trigger] rest[i]).snapshot_id == id && rest[i].user_pk
                    == pk;
            assert(members[i].snapshot_id == id);
        }
        if members.last().snapshot_id == id && members.last().user_pk == pk {
            assert(all[all.len() - 1] == pk);
            assert(members[members.len() - 1].snapshot_id == id);
        }
        if all.contains(pk) && !(members.last().snapshot_id == id && members.last().user_pk == pk) {
            let i = choose|i: int| 0 <= i < all.len() && all[i] == pk;
            assert(some[i] == pk);
        }
        if is_member(members, id, pk) {
            let i = choose|i: int|
                0 <= i < members.len() && (#[trigger] members[i]).snapshot_id == id
                    && members[i].user_pk == pk;
            if i < rest.len() {
                assert(rest[i].snapshot_id == id);
            }
        }
    }
}

/// Saving pages accumulates members in the order they were served. Whoever comes
/// round again is not counted twice and does not disturb the order of what
/// follows, and no other capture changes.
pub proof fn pages_accumulate_in_order(
    members: Seq<MemberRow>,
    id: i64,
    first: u64,
    page: Seq<User>,
    other: i64,
)
    requires
        other != id,
    ensures
        served(with_page(members, id, first, page), id) == grown(served(members, id), page),
        served(with_page(members, id, first, page), other) == served(members, other),
        with_page(members, id, first, page).len() - members.len() == grown(
            served(members, id),
            page,
        ).len() - served(members, id).len(),
    decreases page.len(),
{
    if page.len() > 0 {
        pages_accumulate_in_order(members, id, first, page.drop_last(), other);
        let rest = with_page(members, id, first, page.drop_last());
        lemma_served(rest, id, page.last().pk);
        let all = with_page(members, id, first, page);
        if !is_member(rest, id, page.last().pk) {
            assert(all.drop_last() == rest);
        }
    }
}

/// A page that was saved is in its capture: behind those who were in it stand those
/// of the page who were not, in the order they were served and each once, so many
/// are counted as added, and the walk goes on from the page's cursor. Every other
/// capture and its members are as they were.
pub proof fn a_saved_page_is_in_its_capture(
    before: Store,
    after: Store,
    saved: SavedPage,
    id: i64,
    page: Seq<User>,
    cursor: Option<&str>,
    at: i64,
    other: i64,
)
    requires
        holds_page(before, after, saved, id, page, cursor, at),
        other != id,
    ensures
        served(after.members@, id) == grown(served(before.members@, id), page),
        saved.added == grown(served(before.members@, id), page).len() - served(
            before.members@,
            id,
        ).len(),
        served(after.members@, other) == served(before.members@, other),
        after.snapshots@.len() == before.snapshots@.len(),
        forall|i: int|
            0 <= i < after.snapshots@.len() ==> if (#[trigger] after.snapshots@[i]).id == id {
                text_in(after.snapshots@[i].next_cursor) == str_in(cursor)
            } else {
                after.snapshots@[i] == before.snapshots@[i]
            },
{
    pages_accumulate_in_order(
        before.members@,
        id,
        capture(before.snapshots@, id)->0.member_count,
        page,
        other,
    );
}

/// Whatever else goes, three things stay: the capture a receipt is for, the
/// newest usable one of each list, and any walk that was not finished.
pub proof fn pruning_keeps_what_is_needed(
    rows: Seq<SnapshotRow>,
    marks: Seq<AccountMark>,
    i: int,
    now: i64,
)
    requires
        0 <= i < rows.len(),
        is_marked(marks, rows[i].id) || is_newest_usable(rows, i) || !rows[i].complete,
    ensures
        rows.filter(|row: SnapshotRow| !is_unneeded(rows, marks, row, now)).contains(rows[i]),
{
    let kept = |row: SnapshotRow| !is_unneeded(rows, marks, row, now);
    if is_newest_usable(rows, i) {
        assert(is_unsurpassed(rows, rows[i]));
    }
    assert(kept(rows[i]));
    let places = lemma_filter_order(rows, kept);
    let k = choose|k: int| 0 <= k < places.len() && #[trigger] places[k] == i;
    assert(rows.filter(kept)[k] == rows[i]);
}

/// A report still owed and still news is never pruned, and comes through
/// unchanged.
pub proof fn a_report_still_owed_is_never_pruned(rows: Seq<DeliveryFacts>, i: int, now: i64)
    requires
        0 <= i < rows.len(),
        is_owed(rows[i]),
        rows[i].created_at >= now - MAX_AGE_SECS,
    ensures
        without_old_reports(rows, now).contains(rows[i]),
{
    let mid = rows.map_values(|row: DeliveryFacts| aged(row, now));
    let kept = |row: DeliveryFacts| !is_old_record(row, now);
    assert(mid[i] == rows[i]);
    assert(kept(mid[i]));
    let places = lemma_filter_order(mid, kept);
    let k = choose|k: int| 0 <= k < places.len() && #[trigger] places[k] == i;
    assert(mid.filter(kept)[k] == rows[i]);
}

/// After pruning, no report too old to be news is still owed.
pub proof fn nothing_stays_owed_for_ever(rows: Seq<DeliveryFacts>, i: int, now: i64)
    requires
        0 <= i < without_old_reports(rows, now).len(),
        is_owed(without_old_reports(rows, now)[i]),
    ensures
        without_old_reports(rows, now)[i].created_at >= now - MAX_AGE_SECS,
{
    let mid = rows.map_values(|row: DeliveryFacts| aged(row, now));
    let kept = |row: DeliveryFacts| !is_old_record(row, now);
    let places = lemma_filter_order(mid, kept);
    assert(mid.filter(kept)[i] == mid[places[i]]);
}

/// The last run of an account outlives the retention window, however old it is.
pub proof fn the_last_run_of_an_account_is_never_pruned(runs: Seq<RunRow>, i: int, now: i64)
    requires
        0 <= i < runs.len(),
        is_last_run(runs, runs[i]),
    ensures
        runs.filter(|row: RunRow| !is_old_run(runs, row, now)).contains(runs[i]),
{
    let kept = |row: RunRow| !is_old_run(runs, row, now);
    assert(kept(runs[i]));
    let places = lemma_filter_order(runs, kept);
    let k = choose|k: int| 0 <= k < places.len() && #[trigger] places[k] == i;
    assert(runs.filter(kept)[k] == runs[i]);
}

proof fn lemma_mark_at(marks: Seq<AccountMark>, account: Pk, kind: ListKind, i: int)
    requires
        0 <= i < marks.len(),
        marks[i].is_for(account, kind),
        forall|j: int| 0 <= j < i ==> !(#[trigger] marks[j]).is_for(account, kind),
    ensures
        mark_of(marks, account, kind) == Some(marks[i]),
    decreases i,
{
    if i > 0 {
        let rest = marks.drop_first();
        assert(!marks[0].is_for(account, kind));
        assert forall|j: int| 0 <= j < i - 1 implies !(#[trigger] rest[j]).is_for(account, kind) by {
            assert(rest[j] == marks[j + 1]);
        }
        lemma_mark_at(rest, account, kind, i - 1);
    }
}

proof fn lemma_no_mark(marks: Seq<AccountMark>, account: Pk, kind: ListKind)
    requires
        !has_mark(marks, account, kind),
    ensures
        mark_of(marks, account, kind) is None,
    decreases marks.len(),
{
    if marks.len() > 0 {
        let rest = marks.drop_first();
        assert(!marks[0].is_for(account, kind));
        if has_mark(rest, account, kind) {
            let i = choose|i: int| 0 <= i < rest.len() && (#[trigger] rest[i]).is_for(account, kind);
            assert(marks[i + 1].is_for(account, kind));
        }
        lemma_no_mark(rest, account, kind);
    }
}

proof fn lemma_first_mark(marks: Seq<AccountMark>, account: Pk, kind: ListKind) -> (i: int)
    requires
        has_mark(marks, account, kind),
    ensures
        0 <= i < marks.len(),
        marks[i].is_for(account, kind),
        forall|j: int| 0 <= j < i ==> !(#[trigger] marks[j]).is_for(account, kind),
        mark_of(marks, account, kind) == Some(marks[i]),
    decreases marks.len(),
{
    if marks.first().is_for(account, kind) {
        0
    } else {
        let rest = marks.drop_first();
        let k = choose|k: int| 0 <= k < marks.len() && (#[trigger] marks[k]).is_for(account, kind);
        assert(rest[k - 1].is_for(account, kind));
        let i = lemma_first_mark(rest, account, kind);
        assert forall|j: int| 0 <= j < i + 1 implies !(#[trigger] marks[j]).is_for(account, kind) by {
            if j > 0 {
                assert(rest[j - 1] == marks[j]);
            }
        }
        lemma_mark_at(marks, account, kind, i + 1);
        i + 1
    }
}

/// A receipt reads back as it was made, whatever it said before, and the two
/// lists and the other accounts are marked apart.
pub proof fn a_mark_reads_back(
    marks: Seq<AccountMark>,
    account: Pk,
    kind: ListKind,
    snapshot_id: i64,
    at: i64,
    other: Pk,
    other_kind: ListKind,
)
    requires
        !(other == account && other_kind == kind),
    ensures
        mark_of(with_mark(marks, account, kind, snapshot_id, at), account, kind) == Some(
            AccountMark {
                account_pk: account,
                kind,
                snapshot_id: Some(snapshot_id),
                compared_at: at,
            },
        ),
        mark_of(with_mark(marks, account, kind, snapshot_id, at), other, other_kind) == mark_of(
            marks,
            other,
            other_kind,
        ),
{
    let after = with_mark(marks, account, kind, snapshot_id, at);
    if has_mark(marks, account, kind) {
        let i = lemma_first_mark(marks, account, kind);
        assert forall|j: int| 0 <= j < i implies !(#[trigger] after[j]).is_for(account, kind) by {
            assert(!marks[j].is_for(account, kind));
        }
        lemma_mark_at(after, account, kind, i);
    } else {
        assert forall|j: int| 0 <= j < marks.len() implies !(#[trigger] after[j]).is_for(
            account,
            kind,
        ) by {
            assert(after[j] == marks[j]);
        }
        lemma_mark_at(after, account, kind, marks.len() as int);
    }
    if has_mark(marks, other, other_kind) {
        let i = lemma_first_mark(marks, other, other_kind);
        assert(after[i] == marks[i]);
        assert forall|j: int| 0 <= j < i implies !(#[trigger] after[j]).is_for(
            other,
            other_kind,
        ) by {
            assert(!marks[j].is_for(other, other_kind));
        }
        lemma_mark_at(after, other, other_kind, i);
    } else {
        lemma_no_mark(marks, other, other_kind);
        if has_mark(after, other, other_kind) {
            let i = choose|i: int|
                0 <= i < after.len() && (#[trigger] after[i]).is_for(other, other_kind);
            if i < marks.len() {
                assert(marks[i].is_for(other, other_kind));
            }
        }
        lemma_no_mark(after, other, other_kind);
    }
}

/// A rename is announced in the one window its entry is in: what a window gives
/// back lies inside it, so two windows that follow each other share nothing.
pub proof fn a_rename_is_in_one_window(
    entries: Seq<HistoryRow>,
    history: Seq<HistoryRow>,
    users: Seq<UserRow>,
    members: Seq<MemberRow>,
    snapshot_id: i64,
    since: i64,
    head: i64,
    k: int,
)
    requires
        0 <= k < renames_of(entries, history, users, members, snapshot_id, since, head).len(),
    ensures
        ({
            let found = renames_of(entries, history, users, members, snapshot_id, since, head)[k];
            &&& since < found.history_id <= head
            &&& found.from@ != found.to@
            &&& is_member(members, snapshot_id, found.pk)
            &&& user_row(users, found.pk) matches Some(row) && row.user.username == found.to
        }),
    decreases entries.len(),
{
    let all = renames_of(entries, history, users, members, snapshot_id, since, head);
    let rest = renames_of(
        entries.drop_last(),
        history,
        users,
        members,
        snapshot_id,
        since,
        head,
    );
    if k < rest.len() {
        a_rename_is_in_one_window(
            entries.drop_last(),
            history,
            users,
            members,
            snapshot_id,
            since,
            head,
            k,
        );
        assert(all[k] == rest[k]);
    }
}

/// Whoever in a capture goes by another name than when the window opened is
/// announced, from the name they had then, however often they changed it.
pub proof fn no_rename_is_missed(
    entries: Seq<HistoryRow>,
    history: Seq<HistoryRow>,
    users: Seq<UserRow>,
    members: Seq<MemberRow>,
    snapshot_id: i64,
    since: i64,
    head: i64,
    i: int,
) -> (k: int)
    requires
        0 <= i < entries.len(),
        crate::store::watch::opens_window(history, entries[i], since, head),
        is_member(members, snapshot_id, entries[i].pk),
        user_row(users, entries[i].pk) is Some,
        user_row(users, entries[i].pk)->0.user.username@ != entries[i].username@,
    ensures
        0 <= k < renames_of(entries, history, users, members, snapshot_id, since, head).len(),
        ({
            let found = renames_of(entries, history, users, members, snapshot_id, since, head)[k];
            &&& found.pk == entries[i].pk
            &&& found.history_id == entries[i].id
            &&& found.from == entries[i].username
            &&& found.to == user_row(users, entries[i].pk)->0.user.username
            &&& found.at.0 == entries[i].changed_at
        }),
    decreases entries.len(),
{
    let rest = renames_of(
        entries.drop_last(),
        history,
        users,
        members,
        snapshot_id,
        since,
        head,
    );
    if i == entries.len() - 1 {
        rest.len() as int
    } else {
        assert(entries.drop_last()[i] == entries[i]);
        no_rename_is_missed(
            entries.drop_last(),
            history,
            users,
            members,
            snapshot_id,
            since,
            head,
            i,
        )
    }
}

/// A report and the receipts it makes stale land together: where a receipt moved,
/// the report is queued.
pub proof fn a_mark_never_moves_without_its_report(
    before: Store,
    after: Store,
    account: Pk,
    made: Seq<(ListKind, i64)>,
    at: i64,
    cursor: Option<i64>,
    renames: Seq<i64>,
    delivery: Option<Queued<'_>>,
)
    requires
        is_committed(before, after, account, made, at, cursor, renames, delivery),
        delivery is Some,
    ensures
        has_run(facts(after.deliveries@), delivery->0.run_id@),
        is_owed(facts(after.deliveries@).last()),
        facts(after.deliveries@).last().body == delivery->0.body@,
{
    let rows = facts(after.deliveries@);
    assert(rows[rows.len() - 1].run_id == delivery->0.run_id@);
}

pub proof fn lemma_sent(sent: Seq<SentRename>, account: Pk, ids: Seq<i64>, at: i64, id: i64)
    ensures
        was_sent(with_sent(sent, account, ids, at), account, id) <==> was_sent(sent, account, id)
            || ids.contains(id),
    decreases ids.len(),
{
    if ids.len() > 0 {
        let rest = with_sent(sent, account, ids.drop_last(), at);
        let all = with_sent(sent, account, ids, at);
        lemma_sent(sent, account, ids.drop_last(), at, id);
        assert(ids.contains(id) <==> ids.drop_last().contains(id) || ids.last() == id) by {
            if ids.drop_last().contains(id) {
                let i = choose|i: int| 0 <= i < ids.len() - 1 && ids.drop_last()[i] == id;
                assert(ids[i] == id);
            }
            if ids.last() == id {
                assert(ids[ids.len() - 1] == id);
            }
            if ids.contains(id) && ids.last() != id {
                let i = choose|i: int| 0 <= i < ids.len() && ids[i] == id;
                assert(ids.drop_last()[i] == id);
            }
        }
        if was_sent(rest, account, id) {
            let i = choose|i: int|
                0 <= i < rest.len() && (#[trigger] rest[i]).account_pk == account
                    && rest[i].history_id == id;
            assert(all[i].account_pk == account);
        }
        if !was_sent(rest, account, ids.last()) && ids.last() == id {
            assert(all[rest.len() as int].account_pk == account);
        }
        if was_sent(all, account, id) && !was_sent(rest, account, id) {
            let i = choose|i: int|
                0 <= i < all.len() && (#[trigger] all[i]).account_pk == account
                    && all[i].history_id == id;
            if i < rest.len() {
                assert(rest[i].account_pk == account);
            }
        }
    } else {
        assert(!ids.contains(id));
    }
}

/// What went out is not announced again: after a report, each rename it told of
/// is either filed as sent or below where the next window starts.
pub proof fn what_went_out_is_not_announced_again(
    before: Store,
    after: Store,
    account: Pk,
    made: Seq<(ListKind, i64)>,
    at: i64,
    cursor: Option<i64>,
    renames: Seq<i64>,
    delivery: Option<Queued<'_>>,
    id: i64,
)
    requires
        is_committed(before, after, account, made, at, cursor, renames, delivery),
        renames.contains(id) || was_sent(before.sent@, account, id),
    ensures
        was_sent(after.sent@, account, id) || (cursor matches Some(c) && id <= c),
{
    lemma_sent(before.sent@, account, renames, at, id);
    let all = with_sent(before.sent@, account, renames, at);
    if cursor is Some && id > cursor->0 {
        let kept = |row: SentRename| !is_below(row, account, cursor->0);
        let places = lemma_filter_order(all, kept);
        let i = choose|i: int|
            0 <= i < all.len() && (#[trigger] all[i]).account_pk == account && all[i].history_id
                == id;
        assert(kept(all[i]));
        let k = choose|k: int| 0 <= k < places.len() && #[trigger] places[k] == i;
        assert(after.sent@[k].account_pk == account);
    }
}

} // verus!
