use snob_core::model::{ListKind, StopReason, User};
use snob_core::store::deliveries;
use snob_core::store::snapshots::{self, Process};
use snob_core::store::users;
use snob_core::store::watch::{
    all_marks, commit_report, history_head, interval_seeded_at, last_runs, last_started, mark,
    prune, record_run, rename_cursor, renames_already_sent, renames_since, set_interval_seeded_at,
    set_mark, set_rename_cursor, AccountMark, Mark, Queued, Run, KEEP_DELIVERIES_FOR_SECS,
    KEEP_FOR_SECS, KEEP_RUNS_FOR_SECS,
};
use snob_core::store::{now, Store, StoreError};
use snob_core::Pk;

const SEVEN: Pk = Pk(7);

/// The newest run of one account.
fn one_of(runs: &[Run], account_pk: u64) -> &Run {
    runs.iter()
        .find(|run| run.account_pk == Pk::new(account_pk))
        .unwrap_or_else(|| panic!("no run recorded for {account_pk}"))
}

fn user(pk: u64, name: &str) -> User {
    User {
        pk: Pk::new(pk),
        username: name.into(),
        full_name: None,
        is_private: None,
        is_verified: None,
        pfp_url: None,
    }
}

fn me() -> Process {
    Process::new(1, 1)
}

/// The top of the rename window, for a test that only cares about the bottom.
fn head_now(db: &Store) -> i64 {
    history_head(db)
}

/// An account with one capture holding `members`, ready to be marked.
fn account_with_capture(db: &mut Store, pk: u64, members: &[User]) -> i64 {
    capture(db, pk, ListKind::Followers, members)
}

fn capture(db: &mut Store, pk: u64, kind: ListKind, members: &[User]) -> i64 {
    users::ensure(db, Pk::new(pk));
    let opened = snapshots::begin(db, &me(), Pk::new(pk), kind, None);
    snapshots::save_page(db, &me(), opened.id, members, None).unwrap();
    snapshots::close(db, &me(), opened.id, StopReason::Completed);
    opened.id
}

#[test]
fn an_account_that_was_never_watched_has_no_mark() {
    let db = Store::in_memory();
    assert_eq!(mark(&db, SEVEN, ListKind::Followers), None);
}

#[test]
fn a_mark_is_written_and_read_back() {
    let mut db = Store::in_memory();
    let id = account_with_capture(&mut db, 7, &[user(1, "one")]);

    set_mark(&mut db, SEVEN, ListKind::Followers, id, 1_700).unwrap();
    assert_eq!(
        mark(&db, SEVEN, ListKind::Followers),
        Some(Mark { snapshot_id: Some(id), compared_at: 1_700 })
    );
}

/// The two lists are marked separately.
#[test]
fn the_two_lists_are_marked_apart() {
    let mut db = Store::in_memory();
    let id = account_with_capture(&mut db, 7, &[user(1, "one")]);

    set_mark(&mut db, SEVEN, ListKind::Followers, id, 1_700).unwrap();
    assert_eq!(mark(&db, SEVEN, ListKind::Following), None);
}

#[test]
fn marking_again_moves_the_mark_rather_than_failing() {
    let mut db = Store::in_memory();
    let first = account_with_capture(&mut db, 7, &[user(1, "one")]);
    let second = account_with_capture(&mut db, 7, &[user(1, "one")]);

    set_mark(&mut db, SEVEN, ListKind::Followers, first, 1_700).unwrap();
    set_mark(&mut db, SEVEN, ListKind::Followers, second, 1_800).unwrap();
    assert_eq!(
        mark(&db, SEVEN, ListKind::Followers),
        Some(Mark { snapshot_id: Some(second), compared_at: 1_800 })
    );
}

/// The quiet run: the same capture, a later moment.
#[test]
fn a_quiet_run_moves_the_moment_without_moving_the_capture() {
    let mut db = Store::in_memory();
    let id = account_with_capture(&mut db, 7, &[user(1, "one")]);

    set_mark(&mut db, SEVEN, ListKind::Followers, id, 1_700).unwrap();
    set_mark(&mut db, SEVEN, ListKind::Followers, id, 1_800).unwrap();

    assert_eq!(
        mark(&db, SEVEN, ListKind::Followers),
        Some(Mark { snapshot_id: Some(id), compared_at: 1_800 }),
        "a run that found nothing still reported, and status says when"
    );
}

/// And a receipt whose capture retention took can be marked again.
#[test]
fn a_receipt_whose_capture_was_pruned_can_be_marked_again() {
    let mut db = Store::in_memory();
    let first = account_with_capture(&mut db, 7, &[user(1, "one")]);
    set_mark(&mut db, SEVEN, ListKind::Followers, first, 1_700).unwrap();

    snapshots::delete_snapshots(&mut db, &[first]);
    assert_eq!(
        mark(&db, SEVEN, ListKind::Followers).unwrap().snapshot_id,
        None,
        "the fixture depends on the receipt outliving its capture"
    );

    let second = account_with_capture(&mut db, 7, &[user(1, "one")]);
    set_mark(&mut db, SEVEN, ListKind::Followers, second, 1_800).unwrap();

    assert_eq!(
        mark(&db, SEVEN, ListKind::Followers),
        Some(Mark { snapshot_id: Some(second), compared_at: 1_800 }),
        "the next run lays a new baseline, and this is where it is recorded"
    );
}

/// What happens when retention takes the capture a mark points at.
#[test]
fn pruning_the_marked_capture_leaves_the_receipt_behind() {
    let mut db = Store::in_memory();
    let id = account_with_capture(&mut db, 7, &[user(1, "one")]);
    set_mark(&mut db, SEVEN, ListKind::Followers, id, 1_700).unwrap();

    snapshots::delete_snapshots(&mut db, &[id]);

    assert_eq!(
        mark(&db, SEVEN, ListKind::Followers),
        Some(Mark { snapshot_id: None, compared_at: 1_700 }),
        "the baseline is gone but what has already been reported is not"
    );
}

#[test]
fn a_rename_inside_the_window_is_reported_with_both_names() {
    let mut db = Store::in_memory();
    let id = account_with_capture(&mut db, 7, &[user(1, "before")]);

    // The walk that sees the new name is what files the history row.
    users::upsert(&mut db, &user(1, "after"));

    let found = renames_since(&db, id, 0, head_now(&db));
    assert_eq!(found.len(), 1);
    assert_eq!(found[0].pk, Pk::new(1));
    assert_eq!(found[0].from, "before");
    assert_eq!(found[0].to, "after");
}

/// The bound that stops one event being announced by two runs in a row.
#[test]
fn a_rename_already_reported_is_not_reported_again() {
    let mut db = Store::in_memory();
    let id = account_with_capture(&mut db, 7, &[user(1, "before")]);
    users::upsert(&mut db, &user(1, "after"));

    assert_eq!(renames_since(&db, id, 0, head_now(&db)).len(), 1);

    let head = history_head(&db);
    assert!(
        renames_since(&db, id, head, head_now(&db)).is_empty(),
        "the run that reported it stopped at that id, so the next window starts after it"
    );
}

/// The window has a top as well as a bottom.
#[test]
fn a_rename_filed_after_the_head_was_read_waits_for_the_next_window() {
    let mut db = Store::in_memory();
    let id = account_with_capture(&mut db, 7, &[user(1, "before"), user(2, "other")]);

    // What this run will report on, and the head it read before comparing.
    users::upsert(&mut db, &user(1, "after"));
    let head = head_now(&db);

    // And what another process files while the comparison is running.
    users::upsert(&mut db, &user(2, "other_after"));

    let found = renames_since(&db, id, 0, head);
    assert_eq!(found.len(), 1, "only what was inside the window: {found:?}");
    assert_eq!(found[0].pk, Pk::new(1));

    // And the next run, starting where this one stopped, picks up the one that
    // arrived late rather than losing it.
    let next = renames_since(&db, id, head, head_now(&db));
    assert_eq!(next.len(), 1);
    assert_eq!(next[0].pk, Pk::new(2));
}

/// The newest run of each account outlives the retention window.
#[test]
fn the_last_run_of_an_account_is_never_pruned() {
    let mut db = Store::in_memory();
    let _ = account_with_capture(&mut db, 7, &[user(1, "one")]);

    let long_ago = 1_000;
    for started_at in [long_ago, long_ago + 1] {
        record_run(
            &mut db,
            &Run {
                account_pk: SEVEN,
                started_at,
                finished_at: Some(started_at),
                requests: 0,
                outcome: Some("no_session".to_string()),
                changes: 0,
            },
        );
    }

    prune(&mut db, long_ago + KEEP_RUNS_FOR_SECS + 10);

    let runs = last_runs(&db);
    assert_eq!(runs.len(), 1, "the newest one stays: {runs:?}");
    assert_eq!(runs[0].started_at, long_ago + 1);
    assert_eq!(
        runs[0].outcome.as_deref(),
        Some("no_session"),
        "and it still says what stopped it, which is the whole point"
    );
}

/// Zero is what a mark that has never reported carries.
#[test]
fn an_empty_history_starts_where_an_unreported_mark_does() {
    let db = Store::in_memory();
    assert_eq!(history_head(&db), 0);
    assert_eq!(rename_cursor(&db, SEVEN), 0);
}

/// Back-dates a capture, so retention can be tested without waiting a month.
fn age(db: &mut Store, id: i64, seconds: i64) {
    let row = db.snapshots.iter_mut().find(|row| row.id == id).unwrap();
    row.taken_at = row.taken_at.map(|at| at - seconds);
    row.started_at -= seconds;
}

#[test]
fn an_old_capture_nothing_needs_is_removed_with_its_members() {
    let mut db = Store::in_memory();
    let old = account_with_capture(&mut db, 7, &[user(1, "one")]);
    let newer = account_with_capture(&mut db, 7, &[user(1, "one")]);
    age(&mut db, old, KEEP_FOR_SECS + 1);

    assert_eq!(prune(&mut db, now()), 1);
    assert!(snapshots::find_usable(&db, old).is_none());
    assert!(snapshots::find_usable(&db, newer).is_some());

    let members = db.members.iter().filter(|member| member.snapshot_id == old).count();
    assert_eq!(members, 0, "the members go with the capture");
}

/// The rule the whole of retention has to respect.
#[test]
fn the_capture_a_mark_points_at_is_kept_however_old_it_is() {
    let mut db = Store::in_memory();
    let marked = account_with_capture(&mut db, 7, &[user(1, "one")]);
    // A newer one, so the marked capture is not kept merely for being last.
    account_with_capture(&mut db, 7, &[user(1, "one")]);

    set_mark(&mut db, SEVEN, ListKind::Followers, marked, 1_000).unwrap();
    age(&mut db, marked, KEEP_FOR_SECS * 10);

    prune(&mut db, now());
    assert!(
        snapshots::find_usable(&db, marked).is_some(),
        "the baseline of the next diff was pruned"
    );
}

/// However old everything is, the newest of each list stays.
#[test]
fn the_newest_capture_of_each_list_is_always_kept() {
    let mut db = Store::in_memory();
    let followers = account_with_capture(&mut db, 7, &[user(1, "one")]);
    let following = capture(&mut db, 7, ListKind::Following, &[user(2, "two")]);

    age(&mut db, followers, KEEP_FOR_SECS * 5);
    age(&mut db, following, KEEP_FOR_SECS * 5);

    assert_eq!(prune(&mut db, now()), 0);
    assert!(snapshots::find_usable(&db, followers).is_some());
    assert!(snapshots::find_usable(&db, following).is_some());
}

/// An interrupted walk is resumed from its rows.
#[test]
fn an_unfinished_walk_is_left_alone() {
    let mut db = Store::in_memory();
    account_with_capture(&mut db, 7, &[user(1, "one")]);

    let partial = snapshots::begin(&mut db, &me(), SEVEN, ListKind::Followers, None).id;
    snapshots::save_page(&mut db, &me(), partial, &[user(3, "three")], Some("cursor")).unwrap();
    age(&mut db, partial, KEEP_FOR_SECS * 5);

    prune(&mut db, now());
    let still_there = db.snapshots.iter().filter(|row| row.id == partial).count();
    assert_eq!(still_there, 1);
}

/// A report still owed is work, not history.
#[test]
fn a_report_still_waiting_is_never_pruned() {
    let mut db = Store::in_memory();
    account_with_capture(&mut db, 7, &[user(1, "one")]);

    let now = now();
    let long_ago = now - KEEP_DELIVERIES_FOR_SECS * 10;
    // Owed, and young enough to still be news.
    let owed = deliveries::enqueue(&mut db, "owed", SEVEN, "{}", now - 60, None).unwrap();
    let done = deliveries::enqueue(&mut db, "done", SEVEN, "{}", long_ago, None).unwrap();
    deliveries::delivered(&mut db, done, 200, long_ago);

    prune(&mut db, now);

    assert_eq!(
        deliveries::state(&db, owed).as_deref(),
        Some("pending"),
        "a report that has not been delivered is still owed"
    );
    assert!(
        deliveries::state(&db, done).is_none(),
        "a settled one from a week ago is only a record"
    );
}

/// The other half: a report nothing ever retried does not stay owed forever.
#[test]
fn a_report_too_old_to_be_news_stops_being_owed() {
    let mut db = Store::in_memory();
    account_with_capture(&mut db, 7, &[user(1, "one")]);

    let now = now();
    let stale = now - deliveries::MAX_AGE_SECS - 1;
    let id = deliveries::enqueue(&mut db, "stale", SEVEN, "{}", stale, None).unwrap();
    assert_eq!(deliveries::pending(&db), 1);

    prune(&mut db, now);

    assert_eq!(deliveries::state(&db, id).as_deref(), Some("expired"));
    assert!(
        deliveries::due(&db, now, 10, "https://receiver.example").is_empty(),
        "and it does not go out as news"
    );
    assert_eq!(
        db.deliveries[0].last_error.as_deref(),
        Some("it grew too old to be news")
    );
}

/// Runs are a log.
#[test]
fn the_run_log_does_not_grow_without_end() {
    let mut db = Store::in_memory();
    account_with_capture(&mut db, 7, &[user(1, "one")]);

    let now = now();
    for age in [KEEP_RUNS_FOR_SECS + 1, 60] {
        record_run(
            &mut db,
            &Run {
                account_pk: SEVEN,
                started_at: now - age,
                finished_at: Some(now - age),
                requests: 1,
                outcome: Some("ok".to_string()),
                changes: 0,
            },
        );
    }

    prune(&mut db, now);

    assert_eq!(db.runs.len(), 1, "the old one goes and the recent one stays");
    assert_eq!(one_of(&last_runs(&db), 7).started_at, now - 60);
}

fn run(account: u64, started_at: i64, changes: u32) -> Run {
    Run {
        account_pk: Pk::new(account),
        started_at,
        finished_at: Some(started_at),
        requests: 1,
        outcome: Some("ok".to_string()),
        changes,
    }
}

/// A run belongs to an account, and `status` speaks per account.
#[test]
fn the_last_run_is_the_last_run_of_that_account() {
    let mut db = Store::in_memory();
    account_with_capture(&mut db, 7, &[user(1, "one")]);
    account_with_capture(&mut db, 8, &[user(2, "two")]);

    let now = now();
    for (pk, changes) in [(7u64, 5u32), (8, 0)] {
        record_run(&mut db, &run(pk, now, changes));
    }

    assert_eq!(one_of(&last_runs(&db), 7).changes, 5);
    assert_eq!(one_of(&last_runs(&db), 8).changes, 0);
}

/// A diff about one list may only speak about the people in it.
#[test]
fn somebody_outside_the_capture_is_not_reported() {
    let mut db = Store::in_memory();
    let id = account_with_capture(&mut db, 7, &[user(1, "one")]);

    users::upsert(&mut db, &user(2, "stranger"));
    users::upsert(&mut db, &user(2, "stranger_renamed"));

    assert!(renames_since(&db, id, 0, head_now(&db)).is_empty());
}

/// Somebody who changed their name twice moved once, from where they started.
#[test]
fn two_renames_in_one_window_are_one_move_from_the_first_name() {
    let mut db = Store::in_memory();
    let id = account_with_capture(&mut db, 7, &[user(1, "first")]);

    users::upsert(&mut db, &user(1, "second"));
    users::upsert(&mut db, &user(1, "third"));

    let found = renames_since(&db, id, 0, head_now(&db));
    assert_eq!(found.len(), 1, "one account moved, so one line about it");
    assert_eq!(found[0].from, "first");
    assert_eq!(found[0].to, "third");
}

/// Renamed and renamed back is not news.
#[test]
fn a_name_that_came_back_to_where_it_started_is_not_a_rename() {
    let mut db = Store::in_memory();
    let id = account_with_capture(&mut db, 7, &[user(1, "original")]);

    users::upsert(&mut db, &user(1, "briefly"));
    users::upsert(&mut db, &user(1, "original"));

    assert!(renames_since(&db, id, 0, head_now(&db)).is_empty());
}

#[test]
fn the_last_runs_come_by_account_and_the_last_start_is_one_moment() {
    let mut db = Store::in_memory();
    assert_eq!(last_started(&db), None);
    for (account, at) in [(9, 50), (2, 70), (9, 60), (5, 10), (9, 60)] {
        record_run(&mut db, &run(account, at, 0));
    }
    let runs = last_runs(&db);
    let accounts: Vec<u64> = runs.iter().map(|run| run.account_pk.get()).collect();
    assert_eq!(accounts, vec![2, 5, 9]);
    assert_eq!(runs[2].started_at, 60);
    assert_eq!(last_started(&db), Some(70));
}

#[test]
fn every_receipt_is_listed_newest_first() {
    let mut db = Store::in_memory();
    let one = account_with_capture(&mut db, 7, &[user(1, "one")]);
    set_mark(&mut db, SEVEN, ListKind::Following, one, 100).unwrap();
    set_mark(&mut db, SEVEN, ListKind::Followers, one, 100).unwrap();
    set_mark(&mut db, Pk::new(3), ListKind::Followers, one, 100).unwrap();
    set_mark(&mut db, Pk::new(9), ListKind::Followers, one, 200).unwrap();
    let order: Vec<(u64, ListKind)> =
        all_marks(&db).iter().map(|m: &AccountMark| (m.account_pk.get(), m.kind)).collect();
    assert_eq!(
        order,
        vec![
            (9, ListKind::Followers),
            (3, ListKind::Followers),
            (7, ListKind::Followers),
            (7, ListKind::Following),
        ]
    );
    assert_eq!(
        set_mark(&mut db, SEVEN, ListKind::Followers, 999, 1),
        Err(StoreError::NoSuchCapture)
    );
}

#[test]
fn a_report_and_its_marks_land_together_or_not_at_all() {
    let mut db = Store::in_memory();
    let id = account_with_capture(&mut db, 7, &[user(1, "one")]);
    let queued = Queued { run_id: "run-1", body: "{}", destination: None };
    let made = [(ListKind::Followers, id)];
    assert_eq!(
        commit_report(&mut db, SEVEN, &made, 500, None, &[4, 5, 4], Some(queued)),
        Ok(Some(1))
    );
    assert_eq!(mark(&db, SEVEN, ListKind::Followers).unwrap().compared_at, 500);
    assert_eq!(rename_cursor(&db, SEVEN), 0, "no window was read");
    let mut sent: Vec<i64> = renames_already_sent(&db, SEVEN).into_iter().collect();
    sent.sort_unstable();
    assert_eq!(sent, vec![4, 5]);

    let again = Queued { run_id: "run-1", body: "{}", destination: None };
    assert_eq!(
        commit_report(&mut db, SEVEN, &made, 600, Some(9), &[], Some(again)),
        Err(StoreError::RepeatedRunId)
    );
    assert_eq!(
        mark(&db, SEVEN, ListKind::Followers).unwrap().compared_at,
        500,
        "and the mark did not move without its report"
    );

    assert_eq!(
        commit_report(&mut db, SEVEN, &[(ListKind::Followers, 77)], 600, None, &[], None),
        Err(StoreError::NoSuchCapture)
    );

    assert_eq!(commit_report(&mut db, SEVEN, &made, 700, Some(4), &[6], None), Ok(None));
    assert_eq!(rename_cursor(&db, SEVEN), 4);
    let mut sent: Vec<i64> = renames_already_sent(&db, SEVEN).into_iter().collect();
    sent.sort_unstable();
    assert_eq!(sent, vec![5, 6], "what is below the cursor is never read again");
    assert!(renames_already_sent(&db, Pk::new(8)).is_empty());
}

#[test]
fn the_interval_is_seeded_once() {
    let mut db = Store::in_memory();
    assert_eq!(interval_seeded_at(&db), None);
    set_interval_seeded_at(&mut db, 10);
    set_interval_seeded_at(&mut db, 20);
    assert_eq!(interval_seeded_at(&db), Some(10));
    set_rename_cursor(&mut db, SEVEN, 3, 1);
    set_rename_cursor(&mut db, SEVEN, 5, 2);
    assert_eq!(rename_cursor(&db, SEVEN), 5);
    assert_eq!(db.cursors.len(), 1);
}
