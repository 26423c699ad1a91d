//! What each operation leaves in its rows, said field by field.
use vstd::prelude::*;
use vstd::string::*;

use crate::model::{ListKind, User};
use crate::store::captures::lemma_not_on_the_page;
use crate::store::deliveries::{
    after_failure, arrived, changed, comes_after, has_run, lemma_newest_report, newest_report, placed,
    report, reports_come_out_oldest_first, the_wait_grows_and_then_stops_growing, verdict,
    wait_after, waiting, with_report, Delivery, DeliveryFacts, DeliveryRow, DeliveryState, GaveUp,
    Outcome,
};
use crate::store::laws::{a_mark_reads_back, a_sighting_is_remembered, no_rename_is_missed};
use crate::store::snapshots::{has_capture, is_member, renamed_in, MemberRow, SnapshotRow};
use crate::store::sql_number;
use crate::store::users::{
    ensured, has_user, history_is_sound, lemma_newest_entry, lemma_no_user_row, lemma_user_row,
    name_left, newest_entry, user_row, with_rename, with_user, HistoryRow, UserRow,
};
use crate::store::watch::{
    cursor_of, has_cursor, is_within, mark_of, opens_window, renames_of, stands_before, was_sent,
    with_cursor, with_marks, AccountMark, RenameCursor, SentRename,
};
use crate::Pk;

verus! {

proof fn some_other(pk: Pk) -> (other: Pk)
    ensures
        other != pk,
{
    if pk.0 == 0 {
        Pk(1)
    } else {
        Pk(0)
    }
}

/// What a sighting tells of an account that was known replaces what was known, field by
/// field. What it does not tell stays, and so does the moment of the first sighting.
pub proof fn what_a_sighting_tells_replaces_what_was_known(
    rows: Seq<UserRow>,
    before: UserRow,
    u: User,
    at: i64,
)
    requires
        user_row(rows, u.pk) == Some(before),
    ensures
        ({
            let after = user_row(with_user(rows, u, at), u.pk);
            &&& after is Some
            &&& after->0.user.pk == u.pk
            &&& after->0.user.username == u.username
            &&& u.full_name is Some ==> after->0.user.full_name == u.full_name
            &&& u.full_name is None ==> after->0.user.full_name == before.user.full_name
            &&& u.is_private is Some ==> after->0.user.is_private == u.is_private
            &&& u.is_private is None ==> after->0.user.is_private == before.user.is_private
            &&& u.is_verified is Some ==> after->0.user.is_verified == u.is_verified
            &&& u.is_verified is None ==> after->0.user.is_verified == before.user.is_verified
            &&& u.pfp_url is Some ==> after->0.user.pfp_url == u.pfp_url
            &&& u.pfp_url is None ==> after->0.user.pfp_url == before.user.pfp_url
            &&& after->0.first_seen == before.first_seen
            &&& after->0.last_seen == at
        }),
{
    let other = some_other(u.pk);
    a_sighting_is_remembered(rows, u, at, other);
    lemma_no_user_row(rows, u.pk);
}

/// An account seen for the first time is known as it was seen, from that moment on.
pub proof fn a_first_sighting_is_all_there_is(rows: Seq<UserRow>, u: User, at: i64)
    requires
        forall|i: int| 0 <= i < rows.len() ==> (#[trigger] rows[i]).user.pk != u.pk,
    ensures
        with_user(rows, u, at).len() == rows.len() + 1,
        user_row(with_user(rows, u, at), u.pk) is Some,
        user_row(with_user(rows, u, at), u.pk)->0.user == u,
        user_row(with_user(rows, u, at), u.pk)->0.first_seen == at,
        user_row(with_user(rows, u, at), u.pk)->0.last_seen == at,
{
    let other = some_other(u.pk);
    a_sighting_is_remembered(rows, u, at, other);
    lemma_no_user_row(rows, u.pk);
}

/// A sighting of one account changes nothing that is known of another.
pub proof fn a_sighting_is_of_one_account(rows: Seq<UserRow>, u: User, at: i64, i: int)
    requires
        0 <= i < rows.len(),
        rows[i].user.pk != u.pk,
    ensures
        with_user(rows, u, at).len() >= rows.len(),
        with_user(rows, u, at)[i] == rows[i],
{
}

/// The first row of an account is the one that is read.
pub proof fn the_row_of_an_account_is_found(rows: Seq<UserRow>, i: int)
    requires
        0 <= i < rows.len(),
        forall|j: int| 0 <= j < i ==> (#[trigger] rows[j]).user.pk != rows[i].user.pk,
    ensures
        user_row(rows, rows[i].user.pk) == Some(rows[i]),
{
    lemma_user_row(rows, rows[i].user.pk, i);
}

/// An account that goes by another name than the one it had is filed with the name it
/// left, once, behind everything that is filed.
pub proof fn a_new_name_files_the_old_one(
    history: Seq<HistoryRow>,
    rows: Seq<UserRow>,
    before: UserRow,
    u: User,
    at: i64,
)
    requires
        user_row(rows, u.pk) == Some(before),
        before.user.username@.len() > 0,
        before.user.username@ != u.username@,
        newest_entry(history) < i64::MAX,
    ensures
        name_left(rows, u) == Some(before.user.username),
        with_rename(history, rows, u, at).len() == history.len() + 1,
        with_rename(history, rows, u, at).drop_last() == history,
        with_rename(history, rows, u, at).last().pk == u.pk,
        with_rename(history, rows, u, at).last().username == before.user.username,
        with_rename(history, rows, u, at).last().changed_at == at,
        forall|i: int|
            0 <= i < history.len() ==> (#[trigger] history[i]).id < with_rename(
                history,
                rows,
                u,
                at,
            ).last().id,
{
    lemma_newest_entry(history);
    assert(with_rename(history, rows, u, at).drop_last() =~= history);
}

/// Nothing is filed of an account that is new, that had no name yet, or that goes by the
/// name it had.
pub proof fn nothing_is_filed_without_a_new_name(
    history: Seq<HistoryRow>,
    rows: Seq<UserRow>,
    u: User,
    at: i64,
)
    requires
        user_row(rows, u.pk) matches Some(before) ==> before.user.username@.len() == 0
            || before.user.username@ == u.username@,
    ensures
        name_left(rows, u) is None,
        with_rename(history, rows, u, at) == history,
{
}

/// An account seen without its name is there afterwards as of that moment: with no name
/// and no details where it was new, and with all that was known where it was not. No other
/// row changes.
pub proof fn a_nameless_sighting_only_moves_the_moment(
    before: Seq<UserRow>,
    after: Seq<UserRow>,
    pk: Pk,
    at: i64,
    i: int,
)
    requires
        ensured(before, after, pk, at),
    ensures
        after.len() == before.len() + if has_user(before, pk) {
            0int
        } else {
            1
        },
        0 <= i < before.len() ==> before[i].user.pk != pk ==> after[i] == before[i],
        0 <= i < before.len() ==> before[i].user.pk == pk ==> after[i].user == before[i].user
            && after[i].first_seen == before[i].first_seen && after[i].last_seen == at,
        !has_user(before, pk) ==> {
            let made = after[before.len() as int];
            &&& made.user.pk == pk
            &&& made.user.username@.len() == 0
            &&& made.user.full_name is None
            &&& made.user.is_private is None
            &&& made.user.is_verified is None
            &&& made.user.pfp_url is None
            &&& made.first_seen == at
            &&& made.last_seen == at
        },
{
    if !has_user(before, pk) && 0 <= i < before.len() {
        assert(after.drop_last()[i] == before[i]);
        assert(before[i].user.pk != pk);
    }
}

/// An account with any entry in a window has a first one there, whatever it has outside.
proof fn lemma_first_in_window(history: Seq<HistoryRow>, j: int, since: i64, head: i64) -> (i: int)
    requires
        0 <= j < history.len(),
        since < history[j].id <= head,
    ensures
        0 <= i < history.len(),
        history[i].pk == history[j].pk,
        since < history[i].id <= head,
        forall|k: int|
            0 <= k < history.len() && (#[trigger] history[k]).pk == history[j].pk && since
                < history[k].id <= head ==> history[i].id <= history[k].id,
    decreases history[j].id - since,
{
    if exists|k: int|
        0 <= k < history.len() && (#[trigger] history[k]).pk == history[j].pk && since
            < history[k].id < history[j].id {
        let k = choose|k: int|
            0 <= k < history.len() && (#[trigger] history[k]).pk == history[j].pk && since
                < history[k].id < history[j].id;
        lemma_first_in_window(history, k, since, head)
    } else {
        j
    }
}

/// An account of a capture that has any entry in a window is announced when the name of its
/// first entry there is not the one it has now: from that name to this one, as of that
/// entry. What it has filed at or below the start of the window makes no difference.
pub proof fn whoever_was_renamed_in_the_window_is_announced(
    history: Seq<HistoryRow>,
    users: Seq<UserRow>,
    members: Seq<MemberRow>,
    snapshot_id: i64,
    since: i64,
    head: i64,
    j: int,
    m: int,
    row: UserRow,
) -> (found: (int, int))
    requires
        0 <= j < history.len(),
        since < history[j].id <= head,
        0 <= m < members.len(),
        members[m].snapshot_id == snapshot_id,
        members[m].user_pk == history[j].pk,
        user_row(users, history[j].pk) == Some(row),
    ensures
        ({
            let (i, k) = found;
            let told = renames_of(history, history, users, members, snapshot_id, since, head);
            &&& 0 <= i < history.len()
            &&& history[i].pk == history[j].pk
            &&& since < history[i].id <= head
            &&& forall|e: int|
                0 <= e < history.len() && (#[trigger] history[e]).pk == history[j].pk && since
                    < history[e].id <= head ==> history[i].id <= history[e].id
            &&& history[i].username@ != row.user.username@ ==> {
                &&& 0 <= k < told.len()
                &&& told[k].pk == history[j].pk
                &&& told[k].history_id == history[i].id
                &&& told[k].from == history[i].username
                &&& told[k].to == row.user.username
                &&& told[k].at.0 == history[i].changed_at
            }
        }),
{
    let i = lemma_first_in_window(history, j, since, head);
    assert(is_member(members, snapshot_id, history[j].pk));
    let k = if history[i].username@ != row.user.username@ {
        assert(opens_window(history, history[i], since, head));
        no_rename_is_missed(
            history,
            history,
            users,
            members,
            snapshot_id,
            since,
            head,
            i,
        )
    } else {
        0
    };
    (i, k)
}

/// Where a rename that is announced comes from, and that it comes before the others.
proof fn lemma_announced(
    entries: Seq<HistoryRow>,
    history: Seq<HistoryRow>,
    users: Seq<UserRow>,
    members: Seq<MemberRow>,
    snapshot_id: i64,
    since: i64,
    head: i64,
    k: int,
) -> (i: int)
    requires
        0 <= k < renames_of(entries, history, users, members, snapshot_id, since, head).len(),
    ensures
        0 <= i < entries.len(),
        opens_window(history, entries[i], since, head),
        ({
            let found = renames_of(entries, history, users, members, snapshot_id, since, head)[k];
            found.history_id == entries[i].id && found.pk == entries[i].pk && found.from
                == entries[i].username
        }),
    decreases entries.len(),
{
    let rest = entries.drop_last();
    let before = renames_of(rest, history, users, members, snapshot_id, since, head);
    if k < before.len() {
        let i = lemma_announced(rest, history, users, members, snapshot_id, since, head, k);
        assert(rest[i] == entries[i]);
        i
    } else {
        entries.len() - 1
    }
}

proof fn lemma_announced_in_order(
    entries: Seq<HistoryRow>,
    history: Seq<HistoryRow>,
    users: Seq<UserRow>,
    members: Seq<MemberRow>,
    snapshot_id: i64,
    since: i64,
    head: i64,
    k: int,
    l: int,
)
    requires
        history_is_sound(entries),
        0 <= k < l < renames_of(entries, history, users, members, snapshot_id, since, head).len(),
    ensures
        ({
            let told = renames_of(entries, history, users, members, snapshot_id, since, head);
            told[k].history_id < told[l].history_id
        }),
    decreases entries.len(),
{
    let rest = entries.drop_last();
    let before = renames_of(rest, history, users, members, snapshot_id, since, head);
    assert forall|i: int| 0 <= i < rest.len() implies (#[trigger] rest[i]).id >= 1 by {
        assert(entries[i].id >= 1);
    }
    assert forall|i: int, j: int| 0 <= i < j < rest.len() implies (#[trigger] rest[i]).id < (
    #[trigger] rest[j]).id by {
        assert(entries[i].id < entries[j].id);
    }
    if l < before.len() {
        lemma_announced_in_order(
            rest,
            history,
            users,
            members,
            snapshot_id,
            since,
            head,
            k,
            l,
        );
    } else {
        let i = lemma_announced(rest, history, users, members, snapshot_id, since, head, k);
        assert(entries[i].id < entries[entries.len() - 1].id);
    }
}

/// An account is announced once in a window, in the order its entry was filed, and from the
/// name it had when the window opened: that of its first entry there.
pub proof fn an_account_is_announced_once(
    history: Seq<HistoryRow>,
    users: Seq<UserRow>,
    members: Seq<MemberRow>,
    snapshot_id: i64,
    since: i64,
    head: i64,
    k: int,
    l: int,
) -> (i: int)
    requires
        history_is_sound(history),
        0 <= k < l < renames_of(
            history,
            history,
            users,
            members,
            snapshot_id,
            since,
            head,
        ).len(),
    ensures
        ({
            let told = renames_of(history, history, users, members, snapshot_id, since, head);
            &&& told[k].pk != told[l].pk
            &&& told[k].history_id < told[l].history_id
            &&& 0 <= i < history.len()
            &&& history[i].pk == told[k].pk
            &&& history[i].username == told[k].from
            &&& since < history[i].id <= head
            &&& forall|e: int|
                0 <= e < history.len() && (#[trigger] history[e]).pk == history[i].pk && since
                    < history[e].id <= head ==> history[i].id <= history[e].id
        }),
{
    let told = renames_of(history, history, users, members, snapshot_id, since, head);
    lemma_announced_in_order(
        history,
        history,
        users,
        members,
        snapshot_id,
        since,
        head,
        k,
        l,
    );
    let i = lemma_announced(history, history, users, members, snapshot_id, since, head, k);
    let j = lemma_announced(history, history, users, members, snapshot_id, since, head, l);
    if told[k].pk == told[l].pk {
        assert(history[i].pk == history[j].pk);
        assert(is_within(history[i], since, head) && is_within(history[j], since, head));
    }
    i
}

/// A report that failed and was put off is due again from the moment it was put off to,
/// for as long as it is not a day old, however often it has failed before.
pub proof fn a_report_put_off_comes_round_again(
    before: DeliveryRow,
    after: DeliveryRow,
    status: Option<u16>,
    error: Seq<char>,
    now: i64,
    next: i64,
    later: i64,
    destination: Seq<char>,
)
    requires
        before.state == DeliveryState::Pending,
        verdict(before@, false, now) == Outcome::Retrying(next),
        after@ == after_failure(before@, status, error, Outcome::Retrying(next), now),
        next <= later,
        later - before.created_at <= 86_400,
        before.destination is None || before.destination->0@ == destination,
    ensures
        after.is_due(later, destination),
        after.attempts == before.attempts + 1,
{
    assert(after@.destination == before@.destination);
    assert(after@.state == before@.state);
    assert(after@.created_at == before@.created_at);
    assert(after@.next_try_at == Some(next));
}

/// A report that was queued is due at once and for a day, where it is addressed, and
/// wherever is asked when it is addressed nowhere.
pub proof fn a_queued_report_is_due_at_once(
    rows: Seq<DeliveryFacts>,
    run_id: Seq<char>,
    account: Pk,
    body: Seq<char>,
    at: i64,
    destination: Option<Seq<char>>,
    row: DeliveryRow,
    now: i64,
    here: Seq<char>,
)
    requires
        row@ == with_report(rows, run_id, account, body, at, destination).last(),
        at <= now <= at + 86_400,
    ensures
        destination is None ==> row.is_due(now, here),
        destination is Some ==> (row.is_due(now, here) <==> destination->0 == here),
        row.run_id@ == run_id,
        row.body@ == body,
        row.account_pk == account,
        row.attempts == 0,
{
    assert(row@.destination == destination);
    assert(row@.created_at == at);
    assert(row@.next_try_at == Some(at));
}

/// A report more than a day old is not due, and neither is one for somewhere else.
pub proof fn old_news_and_the_news_of_others_are_not_due(
    row: DeliveryRow,
    now: i64,
    destination: Seq<char>,
)
    requires
        now - row.created_at > 86_400 || (row.destination is Some && row.destination->0@
            != destination),
    ensures
        !row.is_due(now, destination),
{
}

proof fn lemma_placed_holds(ordered: Seq<Delivery>, report: Delivery, x: Delivery)
    ensures
        placed(ordered, report).contains(x) <==> ordered.contains(x) || x == report,
    decreases ordered.len(),
{
    let all = placed(ordered, report);
    if ordered.len() == 0 || !comes_after(ordered.last(), report) {
        assert(all == ordered.push(report));
        if ordered.contains(x) {
            let i = choose|i: int| 0 <= i < ordered.len() && ordered[i] == x;
            assert(all[i] == x);
        }
        assert(all[ordered.len() as int] == report);
    } else {
        let rest = ordered.drop_last();
        let inner = placed(rest, report);
        lemma_placed_holds(rest, report, x);
        assert(all == inner.push(ordered.last()));
        if inner.contains(x) {
            let i = choose|i: int| 0 <= i < inner.len() && inner[i] == x;
            assert(all[i] == x);
        }
        if ordered.contains(x) {
            let i = choose|i: int| 0 <= i < ordered.len() && ordered[i] == x;
            if i < rest.len() {
                assert(rest[i] == x);
            } else {
                assert(all[inner.len() as int] == x);
            }
        }
        if rest.contains(x) {
            let i = choose|i: int| 0 <= i < rest.len() && rest[i] == x;
            assert(ordered[i] == x);
        }
        if all.contains(x) {
            let i = choose|i: int| 0 <= i < all.len() && all[i] == x;
            if i < inner.len() {
                assert(inner[i] == x);
            } else {
                assert(ordered[ordered.len() - 1] == x);
            }
        }
    }
}

/// Every report that is owed, whose moment has come, that is no more than a day old and is
/// not addressed elsewhere is handed out, as it was queued.
pub proof fn what_is_owed_is_handed_out(
    rows: Seq<DeliveryRow>,
    i: int,
    now: i64,
    destination: Seq<char>,
)
    requires
        0 <= i < rows.len(),
        rows[i].state == DeliveryState::Pending,
        rows[i].next_try_at is Some && rows[i].next_try_at->0 <= now,
        now - rows[i].created_at <= 86_400,
        rows[i].destination is None || rows[i].destination->0@ == destination,
    ensures
        exists|k: int|
            0 <= k < waiting(rows, now, destination).len() && {
                let handed = #[trigger] waiting(rows, now, destination)[k];
                &&& handed.id == rows[i].id
                &&& handed.run_id == rows[i].run_id
                &&& handed.body == rows[i].body
                &&& handed.attempts == rows[i].attempts
                &&& handed.created_at == rows[i].created_at
            },
{
    lemma_handed_out(rows, i, now, destination);
    let all = waiting(rows, now, destination);
    let k = choose|k: int| 0 <= k < all.len() && all[k] == rows[i].shown();
    assert(all[k].id == rows[i].id);
}

proof fn lemma_handed_out(rows: Seq<DeliveryRow>, i: int, now: i64, destination: Seq<char>)
    requires
        0 <= i < rows.len(),
        rows[i].is_due(now, destination),
    ensures
        waiting(rows, now, destination).contains(rows[i].shown()),
    decreases rows.len(),
{
    let rest = rows.drop_last();
    let before = waiting(rest, now, destination);
    lemma_placed_holds(before, rows.last().shown(), rows[i].shown());
    if i < rest.len() {
        assert(rest[i] == rows[i]);
        lemma_handed_out(rest, i, now, destination);
    }
}

/// A failed report is tried again unless there was nothing to send, it was the eighth
/// attempt, or the report is a day old, and then it is told which.
pub proof fn a_report_is_given_up_on_for_a_reason(row: DeliveryFacts, permanent: bool, now: i64)
    requires
        now <= i64::MAX - 3_600,
    ensures
        permanent ==> verdict(row, permanent, now) == Outcome::GaveUp(GaveUp::Refused),
        !permanent && row.attempts >= 7 ==> verdict(row, permanent, now) == Outcome::GaveUp(
            GaveUp::OutOfAttempts,
        ),
        !permanent && row.attempts < 7 && now - row.created_at >= 86_400 ==> verdict(
            row,
            permanent,
            now,
        ) == Outcome::GaveUp(GaveUp::TooOld),
        !permanent && row.attempts < 7 && now - row.created_at < 86_400 ==> verdict(
            row,
            permanent,
            now,
        ) is Retrying && verdict(row, permanent, now)->Retrying_0 == now + wait_after(
            row.attempts + 1,
        ),
{
    the_wait_grows_and_then_stops_growing(
        row.attempts + 1,
        row.attempts + 1,
    );
}

/// The first wait is a minute, each one after it is twice the one before, and none is
/// longer than an hour.
pub proof fn the_wait_doubles(attempts: int)
    requires
        attempts >= 1,
    ensures
        wait_after(1) == 60,
        wait_after(attempts + 1) == if 2 * wait_after(attempts) < 3_600 {
            2 * wait_after(attempts)
        } else {
            3_600
        },
{
    vstd::arithmetic::power2::lemma2_to64();
    vstd::arithmetic::power2::lemma_pow2_unfold(attempts as nat);
}

/// A report that arrived is settled at that moment, with what was answered and one more
/// attempt. One that was given up on is settled too, with what was said of it. Neither is
/// owed any more, and what they say is as it was queued.
pub proof fn a_settled_report_keeps_what_it_says(
    row: DeliveryFacts,
    status: u16,
    answer: Option<u16>,
    error: Seq<char>,
    why: GaveUp,
    at: i64,
)
    ensures
        ({
            let done = arrived(row, status, at);
            &&& done.state == DeliveryState::Delivered
            &&& done.settled_at == Some(at)
            &&& done.attempts == row.attempts + 1
            &&& done.last_status == Some(status)
            &&& done.last_error is None
            &&& done.next_try_at is None
            &&& done.id == row.id && done.run_id == row.run_id && done.body == row.body
            &&& done.destination == row.destination && done.created_at == row.created_at
            &&& done.account_pk == row.account_pk
        }),
        ({
            let done = after_failure(row, answer, error, Outcome::GaveUp(why), at);
            &&& done.state == DeliveryState::Expired
            &&& done.settled_at == Some(at)
            &&& done.attempts == row.attempts + 1
            &&& done.last_status == answer
            &&& done.last_error == Some(error)
            &&& done.next_try_at is None
            &&& done.id == row.id && done.run_id == row.run_id && done.body == row.body
            &&& done.destination == row.destination && done.created_at == row.created_at
            &&& done.account_pk == row.account_pk
        }),
{
}

/// How far the renames of an account were reported reads back as it was written, and that
/// of the others stays where it was. It is nothing before any was.
pub proof fn a_cursor_reads_back(
    cursors: Seq<RenameCursor>,
    account: Pk,
    cursor: i64,
    at: i64,
    other: Pk,
)
    requires
        other != account,
    ensures
        cursor_of(with_cursor(cursors, account, cursor, at), account) == cursor,
        cursor_of(with_cursor(cursors, account, cursor, at), other) == cursor_of(cursors, other),
        cursor_of(Seq::empty(), account) == 0,
{
    let after = with_cursor(cursors, account, cursor, at);
    if has_cursor(cursors, account) {
        lemma_cursor_moved(cursors, account, cursor, at, other);
    } else {
        lemma_cursor_added(
            cursors,
            RenameCursor { account_pk: account, cursor, marked_at: at },
            other,
        );
    }
}

proof fn lemma_cursor_moved(
    cursors: Seq<RenameCursor>,
    account: Pk,
    cursor: i64,
    at: i64,
    other: Pk,
)
    requires
        other != account,
        has_cursor(cursors, account),
    ensures
        ({
            let made = RenameCursor { account_pk: account, cursor, marked_at: at };
            let after = cursors.map_values(
                |row: RenameCursor|
                    if row.account_pk == account {
                        made
                    } else {
                        row
                    },
            );
            cursor_of(after, account) == cursor && cursor_of(after, other) == cursor_of(
                cursors,
                other,
            )
        }),
    decreases cursors.len(),
{
    let made = RenameCursor { account_pk: account, cursor, marked_at: at };
    let change = |row: RenameCursor|
        if row.account_pk == account {
            made
        } else {
            row
        };
    let after = cursors.map_values(change);
    let rest = cursors.drop_first();
    assert(after.drop_first() =~= rest.map_values(change));
    if has_cursor(rest, account) {
        lemma_cursor_moved(rest, account, cursor, at, other);
    } else {
        let i = choose|i: int|
            0 <= i < cursors.len() && (#[trigger] cursors[i]).account_pk == account;
        if i > 0 {
            assert(rest[i - 1].account_pk == account);
        }
        assert(rest.map_values(change) =~= rest) by {
            assert forall|k: int| 0 <= k < rest.len() implies (#[trigger] rest[k]).account_pk
                != account by {}
        }
    }
}

proof fn lemma_cursor_added(cursors: Seq<RenameCursor>, made: RenameCursor, other: Pk)
    requires
        other != made.account_pk,
        !has_cursor(cursors, made.account_pk),
    ensures
        cursor_of(cursors.push(made), made.account_pk) == made.cursor,
        cursor_of(cursors.push(made), other) == cursor_of(cursors, other),
    decreases cursors.len(),
{
    let after = cursors.push(made);
    if cursors.len() == 0 {
        assert(after.drop_first() =~= Seq::<RenameCursor>::empty());
        assert(cursor_of(after.drop_first(), other) == 0);
    } else {
        let rest = cursors.drop_first();
        assert(after.drop_first() =~= rest.push(made));
        assert(cursors[0].account_pk != made.account_pk);
        if has_cursor(rest, made.account_pk) {
            let i = choose|i: int|
                0 <= i < rest.len() && (#[trigger] rest[i]).account_pk == made.account_pk;
            assert(cursors[i + 1].account_pk == made.account_pk);
        }
        lemma_cursor_added(rest, made, other);
    }
}

/// After a report each list it spoke about is marked with the last capture it named for
/// it, at the moment of the report, and every other receipt is as it was.
pub proof fn every_list_reported_is_marked(
    marks: Seq<AccountMark>,
    account: Pk,
    made: Seq<(ListKind, i64)>,
    at: i64,
    i: int,
    other: Pk,
    other_kind: ListKind,
)
    requires
        0 <= i < made.len(),
        forall|j: int| i < j < made.len() ==> (#[trigger] made[j]).0 != made[i].0,
        other != account || forall|j: int|
            0 <= j < made.len() ==> (#[trigger] made[j]).0 != other_kind,
    ensures
        mark_of(with_marks(marks, account, made, at), account, made[i].0) == Some(
            AccountMark {
                account_pk: account,
                kind: made[i].0,
                snapshot_id: Some(made[i].1),
                compared_at: at,
            },
        ),
        mark_of(with_marks(marks, account, made, at), other, other_kind) == mark_of(
            marks,
            other,
            other_kind,
        ),
{
    lemma_marks_kept(marks, account, made, at, other, other_kind);
    lemma_list_marked(marks, account, made, at, i);
}

proof fn lemma_marks_kept(
    marks: Seq<AccountMark>,
    account: Pk,
    made: Seq<(ListKind, i64)>,
    at: i64,
    other: Pk,
    other_kind: ListKind,
)
    requires
        other != account || forall|j: int|
            0 <= j < made.len() ==> (#[trigger] made[j]).0 != other_kind,
    ensures
        mark_of(with_marks(marks, account, made, at), other, other_kind) == mark_of(
            marks,
            other,
            other_kind,
        ),
    decreases made.len(),
{
    if made.len() > 0 {
        let rest = made.drop_last();
        assert forall|j: int| 0 <= j < rest.len() && other == account implies (
        #[trigger] rest[j]).0 != other_kind by {
            assert(made[j].0 != other_kind);
        }
        lemma_marks_kept(marks, account, rest, at, other, other_kind);
        assert(other == account ==> made[made.len() - 1].0 != other_kind);
        a_mark_reads_back(
            with_marks(marks, account, rest, at),
            account,
            made.last().0,
            made.last().1,
            at,
            other,
            other_kind,
        );
    }
}

proof fn lemma_list_marked(
    marks: Seq<AccountMark>,
    account: Pk,
    made: Seq<(ListKind, i64)>,
    at: i64,
    i: int,
)
    requires
        0 <= i < made.len(),
        forall|j: int| i < j < made.len() ==> (#[trigger] made[j]).0 != made[i].0,
    ensures
        mark_of(with_marks(marks, account, made, at), account, made[i].0) == Some(
            AccountMark {
                account_pk: account,
                kind: made[i].0,
                snapshot_id: Some(made[i].1),
                compared_at: at,
            },
        ),
    decreases made.len(),
{
    let rest = made.drop_last();
    let before = with_marks(marks, account, rest, at);
    let last = made.last();
    let other = some_other(account);
    if i == made.len() - 1 {
        a_mark_reads_back(before, account, last.0, last.1, at, other, last.0);
    } else {
        assert forall|j: int| i < j < rest.len() implies (#[trigger] rest[j]).0 != rest[i].0 by {
            assert(made[j].0 != made[i].0);
        }
        lemma_list_marked(marks, account, rest, at, i);
        assert(made[made.len() - 1].0 != made[i].0);
        a_mark_reads_back(before, account, last.0, last.1, at, account, made[i].0);
    }
}

/// Of a report that is changed, only that one is: every other row stays as it was.
pub proof fn one_report_is_changed(rows: Seq<DeliveryFacts>, id: i64, to: DeliveryFacts, i: int)
    requires
        0 <= i < rows.len(),
    ensures
        changed(rows, id, to).len() == rows.len(),
        rows[i].id != id ==> changed(rows, id, to)[i] == rows[i],
        rows[i].id == id ==> changed(rows, id, to)[i] == to,
{
}

/// The first report of an id is the one that is meant.
pub proof fn a_report_is_found_by_its_id(rows: Seq<DeliveryFacts>, i: int)
    requires
        0 <= i < rows.len(),
        forall|j: int| 0 <= j < i ==> (#[trigger] rows[j]).id != rows[i].id,
    ensures
        report(rows, rows[i].id) == Some(rows[i]),
    decreases i,
{
    if i > 0 {
        let rest = rows.drop_first();
        assert(rows[0].id != rows[i].id);
        assert(rest[i - 1] == rows[i]);
        assert forall|j: int| 0 <= j < i - 1 implies (#[trigger] rest[j]).id != rest[i - 1].id by {
            assert(rest[j] == rows[j + 1]);
        }
        a_report_is_found_by_its_id(rest, i - 1);
    }
}

/// Receipts are listed newest first, those of one moment by account, and those of one account
/// with the followers first.
pub proof fn receipts_are_listed_newest_first(a: AccountMark, b: AccountMark)
    ensures
        a.compared_at > b.compared_at ==> stands_before(a, b) && !stands_before(b, a),
        a.compared_at == b.compared_at && sql_number(a.account_pk) < sql_number(b.account_pk)
            ==> stands_before(a, b) && !stands_before(b, a),
        a.compared_at == b.compared_at && a.account_pk == b.account_pk && a.kind
            == ListKind::Followers && b.kind == ListKind::Following ==> stands_before(a, b)
            && !stands_before(b, a),
{
}

/// A page tells of everybody on it who goes by another name than the one they had, with the
/// name they left, and of nobody else.
pub proof fn a_page_tells_who_was_renamed(
    rows: Seq<UserRow>,
    page: Seq<User>,
    at: i64,
    i: int,
)
    requires
        0 <= i < page.len(),
        forall|j: int, k: int|
            0 <= j < k < page.len() ==> (#[trigger] page[j]).pk != (#[trigger] page[k]).pk,
    ensures
        user_row(rows, page[i].pk) matches Some(before) ==> before.user.username@.len() > 0
            && before.user.username@ != page[i].username@ ==> renamed_in(rows, page, at).contains(
            (page[i].pk, before.user.username),
        ),
        forall|k: int|
            0 <= k < renamed_in(rows, page, at).len() ==> exists|j: int|
                0 <= j < page.len() && (#[trigger] page[j]).pk == (#[trigger] renamed_in(
                    rows,
                    page,
                    at,
                )[k]).0,
    decreases page.len(),
{
    let rest = page.drop_last();
    let before = renamed_in(rows, rest, at);
    let all = renamed_in(rows, page, at);
    let last = page[page.len() - 1];
    assert forall|j: int, k: int| 0 <= j < k < rest.len() implies (#[trigger] rest[j]).pk != (
    #[trigger] rest[k]).pk by {
        assert(page[j].pk != page[k].pk);
    }
    assert forall|j: int| 0 <= j < rest.len() implies (#[trigger] rest[j]).pk != last.pk by {
        assert(page[j].pk != page[page.len() - 1].pk);
    }
    lemma_not_on_the_page(rows, rest, at, last.pk);
    if i < rest.len() {
        a_page_tells_who_was_renamed(rows, rest, at, i);
        assert(rest[i] == page[i]);
        if let Some(row) = user_row(rows, page[i].pk) {
            if row.user.username@.len() > 0 && row.user.username@ != page[i].username@ {
                let told = (page[i].pk, row.user.username);
                let k = choose|k: int| 0 <= k < before.len() && before[k] == told;
                assert(all[k] == told);
            }
        }
    } else if name_left(rows, last) is Some {
        assert(all[before.len() as int] == (last.pk, name_left(rows, last)->0));
    }
    assert forall|k: int| 0 <= k < all.len() implies exists|j: int|
        0 <= j < page.len() && (#[trigger] page[j]).pk == (#[trigger] all[k]).0 by {
        if k < before.len() {
            a_page_tells_who_was_renamed(rows, rest, at, 0);
            let j = choose|j: int| 0 <= j < rest.len() && (#[trigger] rest[j]).pk == before[k].0;
            assert(page[j].pk == all[k].0);
        } else {
            assert(page[page.len() - 1].pk == all[k].0);
        }
    }
}

/// Of two reports that are handed out, the one that was queued earlier comes first, and of two
/// of one moment the one with the smaller id.
pub proof fn the_oldest_report_is_handed_out_first(
    rows: Seq<DeliveryRow>,
    now: i64,
    destination: Seq<char>,
    k: int,
    l: int,
)
    requires
        0 <= k < l < waiting(rows, now, destination).len(),
    ensures
        ({
            let handed = waiting(rows, now, destination);
            &&& handed[k].created_at <= handed[l].created_at
            &&& handed[k].created_at == handed[l].created_at ==> handed[k].id <= handed[l].id
        }),
{
    reports_come_out_oldest_first(rows, now, destination);
    let handed = waiting(rows, now, destination);
    assert(!comes_after(handed[k], handed[l]));
}

/// Only what is owed is handed out: every report that is stands in a row that is pending, whose
/// moment has come, that is no more than a day old and is not addressed elsewhere.
pub proof fn only_what_is_owed_is_handed_out(
    rows: Seq<DeliveryRow>,
    now: i64,
    destination: Seq<char>,
    k: int,
) -> (i: int)
    requires
        0 <= k < waiting(rows, now, destination).len(),
    ensures
        0 <= i < rows.len(),
        waiting(rows, now, destination)[k].id == rows[i].id,
        waiting(rows, now, destination)[k].body == rows[i].body,
        rows[i].state == DeliveryState::Pending,
        rows[i].next_try_at is Some && rows[i].next_try_at->0 <= now,
        now - rows[i].created_at <= 86_400,
        rows[i].destination is None || rows[i].destination->0@ == destination,
    decreases rows.len(),
{
    let rest = rows.drop_last();
    let before = waiting(rest, now, destination);
    let all = waiting(rows, now, destination);
    let handed = all[k];
    if rows.last().is_due(now, destination) {
        let last = rows.last().shown();
        lemma_placed_holds(before, last, handed);
        assert(all.contains(handed));
        if handed == last {
            rows.len() - 1
        } else {
            let j = choose|j: int| 0 <= j < before.len() && before[j] == handed;
            let i = only_what_is_owed_is_handed_out(rest, now, destination, j);
            assert(rest[i] == rows[i]);
            i
        }
    } else {
        let i = only_what_is_owed_is_handed_out(rest, now, destination, k);
        assert(rest[i] == rows[i]);
        i
    }
}

/// A report that is queued has an id larger than every one there is, and the others stay as
/// they are.
pub proof fn a_queued_report_has_an_id_of_its_own(
    rows: Seq<DeliveryFacts>,
    run_id: Seq<char>,
    account: Pk,
    body: Seq<char>,
    at: i64,
    destination: Option<Seq<char>>,
    i: int,
)
    requires
        0 <= i < rows.len(),
        newest_report(rows) < i64::MAX,
    ensures
        with_report(rows, run_id, account, body, at, destination).len() == rows.len() + 1,
        with_report(rows, run_id, account, body, at, destination)[i] == rows[i],
        with_report(rows, run_id, account, body, at, destination).last().id > rows[i].id,
{
    lemma_newest_report(rows);
}

/// An account is known, a run id taken and a capture there when a row says so, and not
/// otherwise.
pub proof fn what_is_there_has_a_row(
    users: Seq<UserRow>,
    pk: Pk,
    reports: Seq<DeliveryFacts>,
    run_id: Seq<char>,
    captures: Seq<SnapshotRow>,
    id: i64,
    i: int,
)
    ensures
        0 <= i < users.len() && users[i].user.pk == pk ==> has_user(users, pk),
        (forall|j: int| 0 <= j < users.len() ==> (#[trigger] users[j]).user.pk != pk) ==> !has_user(
            users,
            pk,
        ) && user_row(users, pk) is None,
        0 <= i < reports.len() && reports[i].run_id == run_id ==> has_run(reports, run_id),
        (forall|j: int| 0 <= j < reports.len() ==> (#[trigger] reports[j]).run_id != run_id)
            ==> !has_run(reports, run_id),
        0 <= i < captures.len() && captures[i].id == id ==> has_capture(captures, id),
        (forall|j: int| 0 <= j < captures.len() ==> (#[trigger] captures[j]).id != id)
            ==> !has_capture(captures, id),
{
    lemma_no_user_row(users, pk);
}

/// A rename is filed as sent, and an account is in a capture, when a row says so of that account
/// and that rename or that capture, and not otherwise.
pub proof fn what_is_filed_has_a_row(
    sent: Seq<SentRename>,
    account: Pk,
    id: i64,
    members: Seq<MemberRow>,
    capture: i64,
    i: int,
)
    ensures
        0 <= i < sent.len() && sent[i].account_pk == account && sent[i].history_id == id
            ==> was_sent(sent, account, id),
        (forall|j: int|
            0 <= j < sent.len() ==> (#[trigger] sent[j]).account_pk != account || sent[j].history_id
                != id) ==> !was_sent(sent, account, id),
        0 <= i < members.len() && members[i].snapshot_id == capture && members[i].user_pk == account
            ==> is_member(members, capture, account),
        (forall|j: int|
            0 <= j < members.len() ==> (#[trigger] members[j]).snapshot_id != capture
                || members[j].user_pk != account) ==> !is_member(members, capture, account),
{
}

} // verus!
