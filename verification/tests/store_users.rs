use snob_core::model::User;
use snob_core::store::users::{ensure, ensure_at, find, name, upsert, upsert_at};
use snob_core::store::Store;
use snob_core::Pk;

/// The names filed against an account, oldest first.
fn previous_usernames(db: &Store, pk: u64) -> Vec<String> {
    db.history
        .iter()
        .filter(|row| row.pk == Pk::new(pk))
        .map(|row| row.username.clone())
        .collect()
}

fn user(pk: u64, name: &str) -> User {
    User {
        pk: Pk::new(pk),
        username: name.into(),
        full_name: Some("Full Name".into()),
        is_private: Some(false),
        is_verified: Some(false),
        pfp_url: None,
    }
}

/// A session stored without a username reaches `ensure`; a later run learns the
/// name; a run from the cache reaches `ensure` again.
#[test]
fn a_run_that_does_not_know_the_name_never_overwrites_one() {
    let mut db = Store::in_memory();

    ensure(&mut db, Pk::new(7));
    upsert(&mut db, &user(7, "realname"));
    ensure(&mut db, Pk::new(7));

    assert_eq!(find(&db, Pk::new(7)).unwrap().username, "realname");
    assert!(
        previous_usernames(&db, 7).is_empty(),
        "nothing was renamed, so nothing may be filed as a rename"
    );
}

/// Learning the name for the first time is not a rename either.
#[test]
fn learning_a_name_for_the_first_time_is_not_a_rename() {
    let mut db = Store::in_memory();
    ensure(&mut db, Pk::new(7));
    assert_eq!(name(&db, Pk::new(7)), None);

    assert_eq!(upsert(&mut db, &user(7, "realname")), None);
    assert!(previous_usernames(&db, 7).is_empty());
    assert_eq!(name(&db, Pk::new(7)), Some("realname".to_string()));

    // A genuine rename still is one.
    assert_eq!(upsert(&mut db, &user(7, "newname")).as_deref(), Some("realname"));
}

#[test]
fn inserting_twice_leaves_a_single_row() {
    let mut db = Store::in_memory();
    upsert(&mut db, &user(1, "one"));
    upsert(&mut db, &user(1, "one"));
    assert_eq!(db.users.len(), 1);
}

#[test]
fn a_rename_is_recorded() {
    let mut db = Store::in_memory();
    upsert(&mut db, &user(1, "old_name"));

    let previous = upsert(&mut db, &user(1, "new_name"));
    assert_eq!(previous.as_deref(), Some("old_name"));
    assert_eq!(previous_usernames(&db, 1), vec!["old_name"]);

    let unchanged = upsert(&mut db, &user(1, "new_name"));
    assert_eq!(unchanged, None);
}

#[test]
fn a_partial_response_does_not_wipe_existing_metadata() {
    let mut db = Store::in_memory();
    upsert(&mut db, &user(1, "one"));

    let sparse = User {
        pk: Pk::new(1),
        username: "one".into(),
        full_name: None,
        is_private: None,
        is_verified: None,
        pfp_url: None,
    };
    upsert(&mut db, &sparse);

    let stored = find(&db, Pk::new(1)).unwrap();
    assert_eq!(stored.full_name.as_deref(), Some("Full Name"));
    assert_eq!(stored.is_verified, Some(false));
}

#[test]
fn first_seen_stays_put_and_last_seen_moves() {
    let mut db = Store::in_memory();
    upsert(&mut db, &user(1, "one"));
    db.users[0].first_seen = 100;
    db.users[0].last_seen = 100;

    upsert(&mut db, &user(1, "one"));

    assert_eq!(db.users[0].first_seen, 100, "first_seen should not move");
    assert!(db.users[0].last_seen > 100, "last_seen should have been updated");
}

#[test]
fn a_user_that_does_not_exist_returns_nothing() {
    let db = Store::in_memory();
    assert!(find(&db, Pk::new(999)).is_none());
    assert!(name(&db, Pk::new(999)).is_none());
}

#[test]
fn a_sighting_is_dated_by_the_moment_it_is_given() {
    let mut db = Store::in_memory();
    ensure_at(&mut db, Pk::new(3), 50);
    assert_eq!((db.users[0].first_seen, db.users[0].last_seen), (50, 50));
    upsert_at(&mut db, &user(3, "three"), 60);
    ensure_at(&mut db, Pk::new(3), 70);
    assert_eq!((db.users[0].first_seen, db.users[0].last_seen), (50, 70));
    upsert_at(&mut db, &user(3, "drei"), 80);
    assert_eq!(db.history.len(), 1);
    assert_eq!(db.history[0].id, 1);
    assert_eq!(db.history[0].changed_at, 80);
    upsert_at(&mut db, &user(3, "trois"), 90);
    assert_eq!(db.history[1].id, 2);
    assert_eq!(db.history[1].username, "drei");
}
