use snob_core::model::{ListKind, StopReason, User};
use snob_core::paths::PathError;
use snob_core::store::deliveries::enqueue;
use snob_core::store::migrations::COUNT;
use snob_core::store::snapshots::{begin_at, close_at, save_page_at, MemberRow, Process};
use snob_core::store::users::upsert_at;
use snob_core::store::watch::{
    record_run, set_mark, set_rename_cursor, AccountMark, RenameCursor, Run, SentRename,
};
use snob_core::store::{
    now, now_ms, pk_from_sql, pk_to_sql, reject_outdated_schema, Store, StoreError,
};
use snob_core::Pk;

#[test]
fn an_id_survives_the_round_trip() {
    for pk in [0, 1, 4_340_136_074, 71_234_567_890, i64::MAX as u64, u64::MAX] {
        assert_eq!(pk_from_sql(pk_to_sql(Pk::new(pk))), Pk::new(pk));
    }
    assert_eq!(pk_to_sql(Pk::new(u64::MAX)), -1);
}

/// A database from a build whose schema cannot be read has to be refused with an
/// explanation.
#[test]
fn an_outdated_schema_is_refused_clearly() {
    let Err(error) = reject_outdated_schema(1, false, "/tmp/old.db") else {
        panic!("an outdated schema should be refused");
    };
    assert!(matches!(error, StoreError::OutdatedSchema { .. }));
    assert!(error.to_string().contains("Delete that file"));
    assert!(error.to_string().contains("/tmp/old.db"));
    assert!(reject_outdated_schema(1, true, "x").is_ok());
    assert!(reject_outdated_schema(0, false, "x").is_ok(), "brand new, nothing applied yet");
}

#[test]
fn a_new_store_is_empty() {
    let db = Store::in_memory();
    assert!(db.users.is_empty() && db.snapshots.is_empty() && db.deliveries.is_empty());
    assert_eq!(COUNT, 8);
}

#[test]
fn the_store_tells_the_time_in_both_units() {
    assert!((now_ms() / 1_000 - now()).abs() < 60);
}

#[test]
fn what_the_store_refuses_is_named() {
    assert_eq!(
        StoreError::Sqlite("disk I/O error".to_string()).to_string(),
        "database error: disk I/O error"
    );
    assert_eq!(
        StoreError::Migration("broken".to_string()).to_string(),
        "could not apply migrations: broken"
    );
    assert_eq!(StoreError::Data("odd".to_string()).to_string(), "odd");
    assert_eq!(
        StoreError::Paths(PathError::NoHome).to_string(),
        PathError::NoHome.to_string()
    );
    assert_eq!(
        StoreError::NoSuchRow.to_string(),
        "database error: Query returned no rows"
    );
    assert!(StoreError::RepeatedRunId.to_string().contains("UNIQUE"));
    assert!(StoreError::NoSuchCapture.to_string().contains("FOREIGN KEY"));
    assert!(StoreError::ClaimTaken.to_string().contains("another process"));
}

fn user(pk: u64, name: &str) -> User {
    User {
        pk: Pk::new(pk),
        username: name.to_string(),
        full_name: None,
        is_private: None,
        is_verified: None,
        pfp_url: None,
    }
}

/// A store with something in every table.
fn filled() -> Store {
    let mut db = Store::in_memory();
    let me = Process::new(1, 1);
    for list in [ListKind::Followers, ListKind::Following] {
        let id = begin_at(&mut db, &me, Pk::new(1), list, None, 100).id;
        save_page_at(&mut db, &me, id, &[user(10, "a"), user(11, "b")], None, 110).unwrap();
        close_at(&mut db, &me, id, StopReason::Completed, 120);
        set_mark(&mut db, Pk::new(1), list, id, 130).unwrap();
    }
    upsert_at(&mut db, &user(10, "renamed"), 140);
    upsert_at(&mut db, &user(11, "renamed_too"), 150);
    enqueue(&mut db, "run-1", Pk::new(1), "{}", 160, None).unwrap();
    enqueue(&mut db, "run-2", Pk::new(1), "{}", 160, None).unwrap();
    set_rename_cursor(&mut db, Pk::new(1), 1, 170);
    for started_at in [100, 200] {
        record_run(
            &mut db,
            &Run {
                account_pk: Pk::new(1),
                started_at,
                finished_at: None,
                requests: 0,
                outcome: None,
                changes: 0,
            },
        );
    }
    db.sent.push(SentRename { account_pk: Pk::new(1), history_id: 1, sent_at: 180 });
    db
}

#[test]
fn what_the_operations_leave_is_consistent() {
    assert!(Store::in_memory().is_consistent());
    assert!(filled().is_consistent());
}

/// Every way the rows can contradict each other is told.
#[test]
fn rows_that_contradict_each_other_are_told() {
    let breaks: [(&str, fn(&mut Store)); 12] = [
        ("two rows for one account", |db| db.users[0].user.pk = Pk::new(11)),
        ("an id that does not grow", |db| db.history[1].id = 1),
        ("an id below one", |db| db.history[0].id = 0),
        ("two captures of one id", |db| db.snapshots[1].id = 1),
        ("two reports of one run", |db| db.deliveries[1].run_id = "run-1".to_string()),
        ("two runs of one id", |db| db.runs[1].id = 1),
        ("somebody in a capture twice", |db| db.members[1].user_pk = Pk::new(10)),
        ("a place served twice", |db| db.members[1].ordinal = 0),
        ("a place past the last one", |db| db.members[3].ordinal = 2),
        ("a member of no capture", |db| {
            db.members.push(MemberRow { snapshot_id: 9, user_pk: Pk::new(10), ordinal: 0 })
        }),
        ("two receipts for one list", |db| {
            db.marks.push(AccountMark {
                account_pk: Pk::new(1),
                kind: ListKind::Followers,
                snapshot_id: None,
                compared_at: 0,
            })
        }),
        ("a receipt for no capture", |db| db.marks[0].snapshot_id = Some(9)),
    ];
    for (what, break_it) in breaks {
        let mut db = filled();
        break_it(&mut db);
        assert!(!db.is_consistent(), "{what}");
    }
    let mut db = filled();
    db.cursors.push(RenameCursor { account_pk: Pk::new(1), cursor: 5, marked_at: 5 });
    assert!(!db.is_consistent(), "two cursors for one account");
    let mut db = filled();
    db.sent.push(SentRename { account_pk: Pk::new(1), history_id: 1, sent_at: 190 });
    assert!(!db.is_consistent(), "one rename sent twice");
    let mut db = filled();
    db.sent.push(SentRename { account_pk: Pk::new(2), history_id: 1, sent_at: 190 });
    assert!(db.is_consistent(), "but each account has its own");
}
