use snob_core::model::{ListKind, StopReason, User};
use snob_core::store::snapshots::{
    any_capture, begin, begin_at, close, close_at, delete_partials, delete_snapshots, find_usable,
    is_resumable, is_resumable_at, latest_complete, mark_resumed, members, resumable,
    resumable_at, save_page, save_page_at, Process, SnapshotRow, CLAIM_TTL_SECS,
    RESUME_WINDOW_SECS,
};
use snob_core::store::users;
use snob_core::store::{now, Store, StoreError};
use snob_core::Pk;

const ME: Pk = Pk(1);

fn user(pk: u64) -> User {
    User {
        pk: Pk::new(pk),
        username: format!("user{pk}"),
        full_name: None,
        is_private: None,
        is_verified: None,
        pfp_url: None,
    }
}

fn me() -> Process {
    Process::new(4_321, 1_786_310_990_123)
}

fn other() -> Process {
    Process { name: "another-process".to_string() }
}

fn base() -> Store {
    let mut db = Store::in_memory();
    users::upsert(&mut db, &user(1));
    db
}

fn opened(db: &mut Store, kind: ListKind, declared: Option<u64>) -> i64 {
    begin(db, &me(), ME, kind, declared).id
}

fn page(db: &mut Store, id: i64, users: &[User], cursor: Option<&str>) {
    save_page(db, &me(), id, users, cursor).unwrap();
}

fn row(db: &mut Store, id: i64) -> &mut SnapshotRow {
    db.snapshots.iter_mut().find(|row| row.id == id).unwrap()
}

/// Pretends to be another process by writing its claim directly. `at` is when
/// that process last saved a page.
fn claimed_by_somebody_else(db: &mut Store, id: i64, at: i64) {
    let row = row(db, id);
    row.claimed_by = Some(other().name);
    row.claimed_at = Some(at);
}

#[test]
fn the_two_windows_are_the_documented_ones() {
    assert_eq!(RESUME_WINDOW_SECS, 15 * 60);
    assert_eq!(CLAIM_TTL_SECS, 5 * 60);
}

/// A walk somebody else is in the middle of is not adopted.
#[test]
fn a_walk_another_process_is_working_on_is_left_alone() {
    let mut db = base();
    let id = opened(&mut db, ListKind::Followers, Some(10));
    page(&mut db, id, &[user(10)], Some("cursor"));
    claimed_by_somebody_else(&mut db, id, now());

    assert!(
        resumable(&mut db, &me(), ME, ListKind::Followers).is_none(),
        "somebody else is walking this one"
    );
}

/// And one they abandoned is.
#[test]
fn a_walk_abandoned_long_enough_is_adopted() {
    let mut db = base();
    let id = opened(&mut db, ListKind::Followers, Some(10));
    page(&mut db, id, &[user(10)], Some("cursor"));
    claimed_by_somebody_else(&mut db, id, now() - CLAIM_TTL_SECS - 1);

    let adopted =
        resumable(&mut db, &me(), ME, ListKind::Followers).expect("whoever held it is gone");
    assert_eq!(adopted.id, id);
}

/// Taking it is what `resumable` does, not something the caller remembers to do
/// afterwards.
#[test]
fn resuming_takes_the_claim_in_the_same_breath() {
    let mut db = base();
    let id = opened(&mut db, ListKind::Followers, Some(10));
    page(&mut db, id, &[user(10)], Some("cursor"));
    // Free for anybody.
    row(&mut db, id).claimed_by = None;
    row(&mut db, id).claimed_at = None;

    assert!(resumable(&mut db, &me(), ME, ListKind::Followers).is_some());
    assert_eq!(row(&mut db, id).claimed_by, Some(me().name));
    assert!(
        resumable(&mut db, &other(), ME, ListKind::Followers).is_none(),
        "and nobody else gets it"
    );
}

/// Asking whether a walk could be continued does not continue it.
#[test]
fn asking_whether_a_walk_is_resumable_does_not_claim_it() {
    let mut db = base();
    let id = opened(&mut db, ListKind::Followers, Some(10));
    page(&mut db, id, &[user(10)], Some("cursor"));
    close(&mut db, &me(), id, StopReason::Canceled);

    assert!(
        is_resumable(&db, ME, ListKind::Followers),
        "the walk stopped with a cursor, inside the window"
    );
    assert_eq!(row(&mut db, id).claimed_by, None, "asking is not taking");
}

/// There is a window in which another process can adopt a killed walk.
#[test]
fn a_claim_goes_stale_while_the_partial_is_still_worth_resuming() {
    let mut db = base();
    let id = opened(&mut db, ListKind::Followers, Some(10));
    page(&mut db, id, &[user(10)], Some("cursor"));

    // A walk that started well inside the resume window and whose process was
    // killed a moment after its last page.
    let started = now() - CLAIM_TTL_SECS - 60;
    row(&mut db, id).started_at = started;
    claimed_by_somebody_else(&mut db, id, started + 30);

    let adopted = resumable(&mut db, &me(), ME, ListKind::Followers)
        .expect("the claim is stale and the partial is young");
    assert_eq!(adopted.id, id);
}

/// A page for a walk this process no longer holds is refused, not written.
#[test]
fn a_page_for_a_walk_somebody_else_took_over_is_refused() {
    let mut db = base();
    let id = opened(&mut db, ListKind::Followers, Some(10));
    page(&mut db, id, &[user(10)], Some("cursor"));
    claimed_by_somebody_else(&mut db, id, now());

    let refused = save_page(&mut db, &me(), id, &[user(11)], Some("further"));
    assert!(matches!(refused, Err(StoreError::ClaimTaken)));

    assert_eq!(row(&mut db, id).member_count, 1, "the refused page rolled back");
    assert_eq!(
        row(&mut db, id).next_cursor.as_deref(),
        Some("cursor"),
        "the cursor is untouched"
    );
    assert!(users::find(&db, Pk::new(11)).is_none());
}

/// Closing a walk this process no longer holds is refused, like saving one.
#[test]
fn closing_a_walk_somebody_else_took_over_is_refused() {
    let mut db = base();
    let id = opened(&mut db, ListKind::Followers, Some(10));
    page(&mut db, id, &[user(10)], Some("cursor"));
    claimed_by_somebody_else(&mut db, id, now());

    close(&mut db, &me(), id, StopReason::Completed);

    assert!(!row(&mut db, id).complete, "the adopter's walk is still in progress");
    assert_eq!(
        row(&mut db, id).claimed_by.as_deref(),
        Some("another-process"),
        "and it still holds the claim it took"
    );
}

/// The row that comes back is the row that was claimed.
#[test]
fn resuming_returns_the_partial_it_claimed_and_not_a_newer_dead_one() {
    let mut db = base();

    // The partial worth resuming: it has a cursor.
    let wanted = opened(&mut db, ListKind::Followers, Some(10));
    page(&mut db, wanted, &[user(10)], Some("cursor"));

    // And a newer row this process opened and walked away from without closing.
    let abandoned = opened(&mut db, ListKind::Followers, Some(10));
    row(&mut db, wanted).started_at -= 10;
    assert!(abandoned > wanted, "the dead one has to be the newer row");

    let adopted = resumable(&mut db, &me(), ME, ListKind::Followers)
        .expect("there is a partial with a cursor to continue");
    assert_eq!(
        adopted.id, wanted,
        "the row handed back must be the row the claim was taken on"
    );
    assert_eq!(adopted.next_cursor.as_deref(), Some("cursor"));
}

/// A capture that stopped short is not found by id either.
#[test]
fn a_capture_that_stopped_short_is_never_found_by_id() {
    let mut db = base();

    let cut_short = opened(&mut db, ListKind::Followers, Some(10));
    page(&mut db, cut_short, &[user(10)], Some("cursor"));
    close(&mut db, &me(), cut_short, StopReason::RateLimit);
    assert!(
        find_usable(&db, cut_short).is_none(),
        "a walk that stopped short is not something to compare against"
    );

    // The other half: begun, never closed.
    let still_open = opened(&mut db, ListKind::Following, Some(10));
    assert!(find_usable(&db, still_open).is_none());

    // And one it does answer for, so this cannot pass by refusing everything.
    let whole = opened(&mut db, ListKind::Following, Some(1));
    page(&mut db, whole, &[user(11)], None);
    close(&mut db, &me(), whole, StopReason::Completed);
    assert!(find_usable(&db, whole).is_some());
}

/// A finished capture is never unfinished again.
#[test]
fn closing_a_finished_capture_again_cannot_unfinish_it() {
    let mut db = base();
    let id = opened(&mut db, ListKind::Followers, Some(10));
    page(&mut db, id, &[user(10)], None);
    close(&mut db, &me(), id, StopReason::Completed);

    close(&mut db, &me(), id, StopReason::RateLimit);

    assert!(
        find_usable(&db, id).is_some(),
        "a capture that was finished stopped being usable"
    );
}

/// Starting a walk clears abandoned partials and leaves live ones alone.
#[test]
fn clearing_partials_spares_the_one_somebody_is_writing_to() {
    let mut db = base();

    let live = opened(&mut db, ListKind::Followers, Some(10));
    page(&mut db, live, &[user(10)], Some("cursor"));
    claimed_by_somebody_else(&mut db, live, now());

    let abandoned = opened(&mut db, ListKind::Followers, Some(10));
    page(&mut db, abandoned, &[user(11)], Some("cursor"));
    claimed_by_somebody_else(&mut db, abandoned, now() - CLAIM_TTL_SECS - 1);

    assert_eq!(delete_partials(&mut db, &me(), ME, ListKind::Followers), 1);

    let left = db.snapshots.iter().filter(|row| row.id == live).count();
    assert_eq!(left, 1, "the walk somebody is in the middle of was deleted");
}

#[test]
fn a_fresh_snapshot_is_not_complete() {
    let mut db = base();
    let id = opened(&mut db, ListKind::Followers, Some(10));
    assert!(latest_complete(&db, ME, ListKind::Followers).is_none());
    assert_eq!(members(&db, id).len(), 0);
}

fn pks(db: &Store, id: i64) -> Vec<u64> {
    members(db, id).into_iter().map(|u| u.pk.get()).collect()
}

#[test]
fn saving_pages_accumulates_members_in_order() {
    let mut db = base();
    let id = opened(&mut db, ListKind::Followers, Some(4));

    page(&mut db, id, &[user(10), user(11)], Some("c1"));
    page(&mut db, id, &[user(12), user(13)], None);

    assert_eq!(pks(&db, id), vec![10, 11, 12, 13]);
}

#[test]
fn repeats_across_pages_are_not_counted_twice() {
    let mut db = base();
    let id = opened(&mut db, ListKind::Followers, None);

    let first = save_page(&mut db, &me(), id, &[user(10), user(11)], Some("c")).unwrap();
    // Accounts come round again when the list shifts.
    let second = save_page(&mut db, &me(), id, &[user(11), user(12)], None).unwrap();

    assert_eq!(first.added, 2);
    assert_eq!(second.added, 1);
    assert_eq!(members(&db, id).len(), 3);
}

/// A repeat must not push the ordinal forward.
#[test]
fn repeats_do_not_disturb_the_order_of_what_follows() {
    let mut db = base();
    let id = opened(&mut db, ListKind::Followers, None);

    page(&mut db, id, &[user(10), user(11)], Some("c1"));
    // The first two come round again, with one genuinely new behind them.
    page(&mut db, id, &[user(10), user(11), user(12)], Some("c2"));
    page(&mut db, id, &[user(13)], None);

    assert_eq!(pks(&db, id), vec![10, 11, 12, 13]);
}

#[test]
fn saving_a_page_advances_the_cursor() {
    let mut db = base();
    let id = opened(&mut db, ListKind::Followers, None);
    page(&mut db, id, &[user(10)], Some("next"));

    let pending = resumable(&mut db, &me(), ME, ListKind::Followers).unwrap();
    assert_eq!(pending.id, id);
    assert_eq!(pending.next_cursor.as_deref(), Some("next"));
    assert_eq!(pending.pages, 1);
}

#[test]
fn renames_are_reported_when_saving() {
    let mut db = base();
    users::upsert(&mut db, &user(10));

    let id = opened(&mut db, ListKind::Followers, None);
    let mut renamed = user(10);
    renamed.username = "brand_new_name".into();

    let saved = save_page(&mut db, &me(), id, &[renamed], None).unwrap();
    assert_eq!(saved.renamed, vec![(Pk::new(10), "user10".to_string())]);
}

/// The most important rule of the store: a half-finished snapshot can never be
/// the basis of a comparison.
#[test]
fn latest_complete_never_returns_a_partial_one() {
    let mut db = base();

    for reason in [
        StopReason::Canceled,
        StopReason::Truncated,
        StopReason::RateLimit,
        StopReason::Network,
        StopReason::SessionInvalid,
        StopReason::PageLimit,
    ] {
        let id = opened(&mut db, ListKind::Followers, None);
        page(&mut db, id, &[user(10)], None);
        close(&mut db, &me(), id, reason);

        assert!(
            latest_complete(&db, ME, ListKind::Followers).is_none(),
            "a snapshot cut short by {reason:?} should not be usable"
        );
    }

    let id = opened(&mut db, ListKind::Followers, None);
    page(&mut db, id, &[user(10)], None);
    close(&mut db, &me(), id, StopReason::Completed);
    assert!(latest_complete(&db, ME, ListKind::Followers).is_some());
}

/// "The newest capture" has to have one answer, not either of two.
#[test]
fn the_newest_of_two_captures_taken_in_one_second_is_the_later_one() {
    let mut db = base();

    let mut ids = Vec::new();
    for _ in 0..2 {
        let id = opened(&mut db, ListKind::Followers, None);
        page(&mut db, id, &[user(10)], None);
        close(&mut db, &me(), id, StopReason::Completed);
        ids.push(id);
    }

    for row in db.snapshots.iter_mut().filter(|row| row.complete) {
        row.taken_at = Some(1000);
    }

    assert_eq!(latest_complete(&db, ME, ListKind::Followers).unwrap().id, ids[1]);
}

/// Every reason there is can end a walk.
#[test]
fn every_stop_reason_is_accepted_by_the_schema() {
    let mut db = base();
    for reason in StopReason::ALL {
        let id = opened(&mut db, ListKind::Following, None);
        page(&mut db, id, &[user(10)], None);
        close(&mut db, &me(), id, reason);
        assert_eq!(row(&mut db, id).stopped_by, Some(reason));
    }
}

#[test]
fn closing_cleanly_clears_the_pending_cursor() {
    let mut db = base();
    let id = opened(&mut db, ListKind::Followers, None);
    page(&mut db, id, &[user(10)], Some("leftover"));
    close(&mut db, &me(), id, StopReason::Completed);

    let snapshot = latest_complete(&db, ME, ListKind::Followers).unwrap();
    assert_eq!(snapshot.next_cursor, None);
    assert!(resumable(&mut db, &me(), ME, ListKind::Followers).is_none());
}

#[test]
fn an_interrupted_one_keeps_its_cursor_to_resume() {
    let mut db = base();
    let id = opened(&mut db, ListKind::Followers, None);
    page(&mut db, id, &[user(10)], Some("from_here"));
    close(&mut db, &me(), id, StopReason::Canceled);

    let pending = resumable(&mut db, &me(), ME, ListKind::Followers).unwrap();
    assert_eq!(pending.next_cursor.as_deref(), Some("from_here"));
}

#[test]
fn something_too_old_is_not_resumed() {
    let mut db = base();
    let id = opened(&mut db, ListKind::Followers, None);
    page(&mut db, id, &[user(10)], Some("stale"));

    row(&mut db, id).started_at = now() - RESUME_WINDOW_SECS - 1;

    assert!(resumable(&mut db, &me(), ME, ListKind::Followers).is_none());
}

#[test]
fn the_two_lists_do_not_mix() {
    let mut db = base();
    let followers = opened(&mut db, ListKind::Followers, None);
    page(&mut db, followers, &[user(10)], None);
    close(&mut db, &me(), followers, StopReason::Completed);

    assert!(latest_complete(&db, ME, ListKind::Following).is_none());
    assert!(any_capture(&db, ME, ListKind::Followers));
    assert!(!any_capture(&db, ME, ListKind::Following));
}

#[test]
fn deleting_a_snapshot_deletes_its_members() {
    let mut db = base();
    let id = opened(&mut db, ListKind::Followers, None);
    page(&mut db, id, &[user(10), user(11)], None);

    delete_snapshots(&mut db, &[id]);

    assert_eq!(db.members.len(), 0, "the members did not go with it");
}

#[test]
fn deleting_partials_spares_the_complete_ones() {
    let mut db = base();
    let good = opened(&mut db, ListKind::Followers, None);
    page(&mut db, good, &[user(10)], None);
    close(&mut db, &me(), good, StopReason::Completed);

    let bad = opened(&mut db, ListKind::Followers, None);
    page(&mut db, bad, &[user(11)], Some("c"));

    assert_eq!(delete_partials(&mut db, &me(), ME, ListKind::Followers), 1);
    assert!(latest_complete(&db, ME, ListKind::Followers).is_some());
}

#[test]
fn a_page_for_a_capture_that_is_not_there_is_refused() {
    let mut db = base();
    assert_eq!(
        save_page(&mut db, &me(), 99, &[user(10)], None),
        Err(StoreError::NoSuchRow)
    );
    assert_eq!(db.users.len(), 1);
}

#[test]
fn a_walk_is_counted_as_it_goes() {
    let mut db = base();
    let walk = begin_at(&mut db, &me(), ME, ListKind::Followers, Some(7), 1_000);
    assert_eq!(walk.started_at, 1_000);
    save_page_at(&mut db, &me(), walk.id, &[user(10)], Some("c"), 1_010).unwrap();
    mark_resumed(&mut db, walk.id);
    mark_resumed(&mut db, walk.id + 1);
    let stored = row(&mut db, walk.id);
    assert_eq!((stored.pages, stored.requests, stored.resumes), (1, 1, 1));
    assert_eq!(stored.claimed_at, Some(1_010));
    assert_eq!(stored.declared_count, Some(7));
    close_at(&mut db, &me(), walk.id, StopReason::Network, 1_020);
    assert_eq!(row(&mut db, walk.id).taken_at, Some(1_020));
    assert!(is_resumable_at(&db, ME, ListKind::Followers, 1_000 + RESUME_WINDOW_SECS));
    assert!(!is_resumable_at(&db, ME, ListKind::Followers, 1_001 + RESUME_WINDOW_SECS));
    let taken = resumable_at(&mut db, &other(), ME, ListKind::Followers, 1_100).unwrap();
    assert_eq!(taken.id, walk.id);
    assert!(!is_resumable_at(&db, ME, ListKind::Followers, 1_101), "it is in somebody's hands");
}

#[test]
fn a_process_is_named_by_its_id_and_its_start() {
    assert_eq!(me().name, "4321-1786310990123");
}
