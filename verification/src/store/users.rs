//! The accounts that have been seen.
//!
//! This is a metadata cache, not a claim of membership in any list: someone
//! being here only means they have been seen at some point.
use vstd::prelude::*;
use vstd::string::*;

use crate::model::{copy_text, User};
use crate::store::{now, Store};
use crate::text::same_text;
use crate::watch::schedule::zone::in_range;
use crate::Pk;

verus! {

/// An account and when it was seen. A name that was never learned is empty.
#[derive(Debug, PartialEq, Eq)]
pub struct UserRow {
    pub user: User,
    pub first_seen: i64,
    pub last_seen: i64,
}

/// A name an account used to have.
#[derive(Debug, PartialEq, Eq)]
pub struct HistoryRow {
    pub id: i64,
    pub pk: Pk,
    pub username: String,
    pub changed_at: i64,
}

/// Whether no account is there twice.
pub open spec fn names_are_sound(rows: Seq<UserRow>) -> bool {
    forall|i: int, j: int|
        0 <= i < j < rows.len() ==> (#[trigger] rows[i]).user.pk != (#[trigger] rows[j]).user.pk
}

/// Whether the ids are positive and grow as rows are filed.
pub open spec fn history_is_sound(rows: Seq<HistoryRow>) -> bool {
    &&& forall|i: int| 0 <= i < rows.len() ==> (#[trigger] rows[i]).id >= 1
    &&& forall|i: int, j: int|
        0 <= i < j < rows.len() ==> (#[trigger] rows[i]).id < (#[trigger] rows[j]).id
}

/// The largest id in the history, and zero where there is none.
pub open spec fn newest_entry(rows: Seq<HistoryRow>) -> i64
    decreases rows.len(),
{
    if rows.len() == 0 {
        0
    } else if rows.last().id > newest_entry(rows.drop_last()) {
        rows.last().id
    } else {
        newest_entry(rows.drop_last())
    }
}

pub proof fn lemma_newest_entry(rows: Seq<HistoryRow>)
    ensures
        newest_entry(rows) >= 0,
        forall|i: int| 0 <= i < rows.len() ==> (#[trigger] rows[i]).id <= newest_entry(rows),
    decreases rows.len(),
{
    if rows.len() > 0 {
        let rest = rows.drop_last();
        lemma_newest_entry(rest);
        assert forall|i: int| 0 <= i < rows.len() implies (#[trigger] rows[i]).id <= newest_entry(
            rows,
        ) by {
            if i < rest.len() {
                assert(rest[i] == rows[i]);
            }
        }
    }
}

/// The largest id in the history, read once when a report is made so that the
/// next one asks for everything after it.
pub fn find_newest_entry(rows: &Vec<HistoryRow>) -> (r: i64)
    ensures
        r == newest_entry(rows@),
{
    let mut newest: i64 = 0;
    let mut i: usize = 0;
    while i < rows.len()
        invariant
            i <= rows@.len(),
            newest == newest_entry(rows@.take(i as int)),
        decreases rows@.len() - i,
    {
        assert(rows@.take(i + 1).drop_last() == rows@.take(i as int));
        if rows[i].id > newest {
            newest = rows[i].id;
        }
        i = i + 1;
    }
    assert(rows@.take(rows@.len() as int) == rows@);
    newest
}

/// The row of an account.
pub open spec fn user_row(rows: Seq<UserRow>, pk: Pk) -> Option<UserRow>
    decreases rows.len(),
{
    if rows.len() == 0 {
        None
    } else if rows.first().user.pk == pk {
        Some(rows.first())
    } else {
        user_row(rows.drop_first(), pk)
    }
}

/// Whether an account has a row.
pub open spec fn has_user(rows: Seq<UserRow>, pk: Pk) -> bool {
    exists|i: int| 0 <= i < rows.len() && (#[trigger] rows[i]).user.pk == pk
}

pub proof fn lemma_user_row(rows: Seq<UserRow>, pk: Pk, i: int)
    requires
        0 <= i < rows.len(),
        rows[i].user.pk == pk,
        forall|j: int| 0 <= j < i ==> (#[trigger] rows[j]).user.pk != pk,
    ensures
        user_row(rows, pk) == Some(rows[i]),
    decreases i,
{
    if i > 0 {
        let rest = rows.drop_first();
        assert(rows[0].user.pk != pk);
        assert forall|j: int| 0 <= j < i - 1 implies (#[trigger] rest[j]).user.pk != pk by {
            assert(rest[j] == rows[j + 1]);
        }
        lemma_user_row(rest, pk, i - 1);
    }
}

pub proof fn lemma_no_user_row(rows: Seq<UserRow>, pk: Pk)
    ensures
        user_row(rows, pk) is None <==> !has_user(rows, pk),
        user_row(rows, pk) matches Some(row) ==> row.user.pk == pk && rows.contains(row),
    decreases rows.len(),
{
    if rows.len() > 0 && rows.first().user.pk != pk {
        let rest = rows.drop_first();
        lemma_no_user_row(rest, pk);
        if has_user(rest, pk) {
            let i = choose|i: int| 0 <= i < rest.len() && (#[trigger] rest[i]).user.pk == pk;
            assert(rows[i + 1].user.pk == pk);
        }
        if has_user(rows, pk) {
            let i = choose|i: int| 0 <= i < rows.len() && (#[trigger] rows[i]).user.pk == pk;
            assert(rest[i - 1].user.pk == pk);
        }
        if user_row(rows, pk) is Some {
            let row = user_row(rows, pk)->0;
            let i = choose|i: int| 0 <= i < rest.len() && rest[i] == row;
            assert(rows[i + 1] == row);
        }
    } else if rows.len() > 0 {
        assert(rows[0].user.pk == pk);
    }
}

/// Where the row of an account is.
pub fn locate(rows: &Vec<UserRow>, pk: Pk) -> (r: Option<usize>)
    ensures
        match r {
            Some(i) => {
                &&& i < rows@.len()
                &&& rows@[i as int].user.pk == pk
                &&& user_row(rows@, pk) == Some(rows@[i as int])
                &&& forall|j: int| 0 <= j < i ==> (#[trigger] rows@[j]).user.pk != pk
            },
            None => user_row(rows@, pk) is None && !has_user(rows@, pk),
        },
{
    let mut i: usize = 0;
    while i < rows.len()
        invariant
            i <= rows@.len(),
            forall|j: int| 0 <= j < i ==> (#[trigger] rows@[j]).user.pk != pk,
        decreases rows@.len() - i,
    {
        if rows[i].user.pk == pk {
            proof {
                lemma_user_row(rows@, pk, i as int);
            }
            return Some(i);
        }
        i = i + 1;
    }
    proof {
        lemma_no_user_row(rows@, pk);
    }
    None
}

/// A row as of a sighting that told nothing.
pub open spec fn seen_again(row: UserRow, at: i64) -> UserRow {
    UserRow { last_seen: at, ..row }
}

/// The rows after an account was seen without its name.
pub open spec fn ensured(before: Seq<UserRow>, after: Seq<UserRow>, pk: Pk, at: i64) -> bool {
    if has_user(before, pk) {
        after == before.map_values(
            |row: UserRow|
                if row.user.pk == pk {
                    seen_again(row, at)
                } else {
                    row
                },
        )
    } else {
        &&& after.len() == before.len() + 1
        &&& after.drop_last() == before
        &&& is_unnamed(after.last(), pk, at)
    }
}

/// The row of an account seen for the first time, without its name.
pub open spec fn is_unnamed(row: UserRow, pk: Pk, at: i64) -> bool {
    &&& row.user.pk == pk
    &&& row.user.username@ == Seq::<char>::empty()
    &&& row.user.full_name is None
    &&& row.user.is_private is None
    &&& row.user.is_verified is None
    &&& row.user.pfp_url is None
    &&& row.first_seen == at
    &&& row.last_seen == at
}

/// Records that an account exists, without claiming to know its name.
///
/// The empty string is what "not known" looks like: no account has one, so it
/// cannot collide with a real name.
pub fn ensure(store: &mut Store, pk: Pk)
    requires
        old(store).is_sound(),
    ensures
        exists|at: i64| #[trigger]
            ensured(old(store).users@, final(store).users@, pk, at) && in_range(at as int),
        *final(store) == (Store { users: final(store).users, ..*old(store) }),
        final(store).is_sound(),
{
    let at: i64 = now();
    ensure_at(store, pk, at);
    assert(ensured(old(store).users@, store.users@, pk, at));
}

/// The same, as of a given moment.
pub fn ensure_at(store: &mut Store, pk: Pk, at: i64)
    requires
        old(store).is_sound(),
    ensures
        ensured(old(store).users@, final(store).users@, pk, at),
        *final(store) == (Store { users: final(store).users, ..*old(store) }),
        final(store).is_sound(),
{
    match locate(&store.users, pk) {
        Some(i) => {
            store.users[i].last_seen = at;
            assert(store.users@ =~= old(store).users@.map_values(
                |row: UserRow|
                    if row.user.pk == pk {
                        seen_again(row, at)
                    } else {
                        row
                    },
            ));
        },
        None => {
            store.users.push(
                UserRow {
                    user: User {
                        pk,
                        username: String::new(),
                        full_name: None,
                        is_private: None,
                        is_verified: None,
                        pfp_url: None,
                    },
                    first_seen: at,
                    last_seen: at,
                },
            );
            assert(store.users@.drop_last() == old(store).users@);
        },
    }
}

/// What is known of an account after one more sighting. What the sighting does
/// not tell stays as it was.
pub open spec fn merged(stored: User, seen: User) -> User {
    User {
        pk: stored.pk,
        username: seen.username,
        full_name: if seen.full_name is Some {
            seen.full_name
        } else {
            stored.full_name
        },
        is_private: if seen.is_private is Some {
            seen.is_private
        } else {
            stored.is_private
        },
        is_verified: if seen.is_verified is Some {
            seen.is_verified
        } else {
            stored.is_verified
        },
        pfp_url: if seen.pfp_url is Some {
            seen.pfp_url
        } else {
            stored.pfp_url
        },
    }
}

/// The rows after an account was seen.
pub open spec fn with_user(rows: Seq<UserRow>, u: User, at: i64) -> Seq<UserRow> {
    if has_user(rows, u.pk) {
        rows.map_values(
            |row: UserRow|
                if row.user.pk == u.pk {
                    UserRow { user: merged(row.user, u), first_seen: row.first_seen, last_seen: at }
                } else {
                    row
                },
        )
    } else {
        rows.push(UserRow { user: u, first_seen: at, last_seen: at })
    }
}

/// The name an account had, where seeing it now means that it changed. An empty
/// name is one that was never known, so learning it is no change.
pub open spec fn name_left(rows: Seq<UserRow>, u: User) -> Option<String> {
    match user_row(rows, u.pk) {
        Some(row) => if row.user.username@.len() > 0 && row.user.username@ != u.username@ {
            Some(row.user.username)
        } else {
            None
        },
        None => None,
    }
}

/// The history after an account was seen.
pub open spec fn with_rename(
    history: Seq<HistoryRow>,
    rows: Seq<UserRow>,
    u: User,
    at: i64,
) -> Seq<HistoryRow> {
    match name_left(rows, u) {
        Some(name) => history.push(
            HistoryRow {
                id: (newest_entry(history) + 1) as i64,
                pk: u.pk,
                username: name,
                changed_at: at,
            },
        ),
        None => history,
    }
}

/// Inserts or updates a user and records the rename if there was one.
///
/// Gives back the previous username when it changed, which is an event worth
/// reporting in its own right.
pub fn upsert(store: &mut Store, u: &User) -> (r: Option<String>)
    requires
        old(store).is_sound(),
        newest_entry(old(store).history@) < i64::MAX,
    ensures
        r == name_left(old(store).users@, *u),
        exists|at: i64| #[trigger]
            with_user(old(store).users@, *u, at) == final(store).users@ && with_rename(
                old(store).history@,
                old(store).users@,
                *u,
                at,
            ) == final(store).history@ && in_range(at as int),
        *final(store) == (Store {
            users: final(store).users,
            history: final(store).history,
            ..*old(store)
        }),
        final(store).is_sound(),
{
    let at: i64 = now();
    let r = upsert_at(store, u, at);
    assert(with_user(old(store).users@, *u, at) == store.users@);
    r
}

/// The same, as of a given moment.
pub fn upsert_at(store: &mut Store, u: &User, at: i64) -> (r: Option<String>)
    requires
        old(store).is_sound(),
        newest_entry(old(store).history@) < i64::MAX,
    ensures
        r == name_left(old(store).users@, *u),
        final(store).users@ == with_user(old(store).users@, *u, at),
        final(store).history@ == with_rename(old(store).history@, old(store).users@, *u, at),
        *final(store) == (Store {
            users: final(store).users,
            history: final(store).history,
            ..*old(store)
        }),
        final(store).is_sound(),
{
    upsert_into(&mut store.users, &mut store.history, u, at)
}

/// The same, on the two tables it is about.
pub fn upsert_into(
    users: &mut Vec<UserRow>,
    history: &mut Vec<HistoryRow>,
    u: &User,
    at: i64,
) -> (r: Option<String>)
    requires
        names_are_sound(old(users)@),
        history_is_sound(old(history)@),
        newest_entry(old(history)@) < i64::MAX,
    ensures
        r == name_left(old(users)@, *u),
        final(users)@ == with_user(old(users)@, *u, at),
        final(history)@ == with_rename(old(history)@, old(users)@, *u, at),
        names_are_sound(final(users)@),
        history_is_sound(final(history)@),
{
    match locate(users, u.pk) {
        Some(i) => {
            let previous = users[i].user.username.clone();
            users[i].last_seen = at;
            users[i].user.username = u.username.clone();
            if u.full_name.is_some() {
                users[i].user.full_name = copy_text(&u.full_name);
            }
            if u.is_private.is_some() {
                users[i].user.is_private = u.is_private;
            }
            if u.is_verified.is_some() {
                users[i].user.is_verified = u.is_verified;
            }
            if u.pfp_url.is_some() {
                users[i].user.pfp_url = copy_text(&u.pfp_url);
            }
            proof {
                assert(old(users)@[i as int].user.pk == u.pk);
                assert(users@ =~= with_user(old(users)@, *u, at));
            }
            if !previous.as_str().is_empty() && !same_text(
                previous.as_str(),
                u.username.as_str(),
            ) {
                let id: i64 = find_newest_entry(history) + 1;
                proof {
                    lemma_newest_entry(history@);
                }
                history.push(
                    HistoryRow { id, pk: u.pk, username: previous.clone(), changed_at: at },
                );
                Some(previous)
            } else {
                None
            }
        },
        None => {
            users.push(UserRow { user: u.clone(), first_seen: at, last_seen: at });
            None
        },
    }
}

/// The stored name, when one was ever learned.
pub fn name(store: &Store, pk: Pk) -> (r: Option<String>)
    ensures
        r == match user_row(store.users@, pk) {
            Some(row) => if row.user.username@.len() > 0 {
                Some(row.user.username)
            } else {
                None
            },
            None => None,
        },
{
    match locate(&store.users, pk) {
        Some(i) => {
            let name = store.users[i].user.username.clone();
            if name.as_str().is_empty() {
                None
            } else {
                Some(name)
            }
        },
        None => None,
    }
}

/// What is known of an account.
pub fn find(store: &Store, pk: Pk) -> (r: Option<User>)
    ensures
        r == match user_row(store.users@, pk) {
            Some(row) => Some(row.user),
            None => None,
        },
{
    match locate(&store.users, pk) {
        Some(i) => Some(store.users[i].user.clone()),
        None => None,
    }
}

} // verus!
