//! What is kept between runs: the tables, and what every operation does to them.
//!
//! A [`Store`] holds the rows themselves. An operation reads them or changes
//! them, and what it leaves behind is written back whole or not at all, so an
//! operation that fails leaves every table as it was.
use vstd::prelude::*;
use vstd::string::*;

use crate::clock;
use crate::paths::PathError;
use crate::watch::schedule::zone::in_range;
use crate::Pk;

pub mod captures;
pub mod check;
pub mod deliveries;
pub mod laws;
pub mod migrations;
pub mod rows;
pub mod snapshots;
pub mod users;
pub mod watch;

verus! {

/// The current moment in seconds, the domain unit: one that a zone can show.
pub fn now() -> (r: i64)
    ensures
        in_range(r as int),
{
    clock::now().get()
}

/// The current moment in milliseconds, the rate-control unit: one in a second that
/// a zone can show.
pub fn now_ms() -> (r: i64)
    ensures
        in_range(r as int / 1_000),
{
    clock::now_ms().get()
}

/// An id as the signed number a column holds: the same 64 bits.
pub open spec fn sql_number(pk: Pk) -> int {
    if pk.0 <= i64::MAX {
        pk.0 as int
    } else {
        pk.0 - 0x1_0000_0000_0000_0000
    }
}

/// The number a column holds for an id. Columns only have signed 64-bit
/// integers.
pub fn pk_to_sql(pk: Pk) -> (r: i64)
    ensures
        r == sql_number(pk),
{
    if pk.0 <= i64::MAX as u64 {
        pk.0 as i64
    } else {
        (pk.0 as i128 - 0x1_0000_0000_0000_0000) as i64
    }
}

/// The id a column holds the number of.
pub fn pk_from_sql(value: i64) -> (r: Pk)
    ensures
        sql_number(r) == value,
{
    if value >= 0 {
        Pk(value as u64)
    } else {
        Pk((value as i128 + 0x1_0000_0000_0000_0000) as u64)
    }
}

/// An id survives the round trip through a column, whichever it is.
pub proof fn an_id_survives_the_round_trip(a: Pk, b: Pk)
    requires
        sql_number(a) == sql_number(b),
    ensures
        a == b,
{
}

/// What an operation can be refused for.
#[derive(Debug, PartialEq, Eq)]
pub enum StoreError {
    /// The database said no, in its own words.
    Sqlite(String),
    /// The chain of migrations could not be applied.
    Migration(String),
    Paths(PathError),
    /// The database was written before the schema this version reads.
    OutdatedSchema { path: String },
    Data(String),
    /// Another process has taken over the walk.
    ClaimTaken,
    /// There is no row of that id.
    NoSuchRow,
    /// A report with that run id is already there.
    RepeatedRunId,
    /// There is no capture of that id for a receipt to be for.
    NoSuchCapture,
}

impl StoreError {
    /// What is said to the user.
    pub open spec fn says(self) -> Seq<char> {
        match self {
            StoreError::Sqlite(what) => "database error: "@ + what@,
            StoreError::Migration(what) => "could not apply migrations: "@ + what@,
            StoreError::Paths(e) => e.says(),
            StoreError::OutdatedSchema { path } => "the database at "@ + path@
                + " was created by an older version of snob and its schema is no longer compatible.\nDelete that file and run the command again."@,
            StoreError::Data(what) => what@,
            StoreError::ClaimTaken => "another process has taken over this walk"@,
            StoreError::NoSuchRow => "database error: Query returned no rows"@,
            StoreError::RepeatedRunId =>
                "database error: UNIQUE constraint failed: watch_deliveries.run_id"@,
            StoreError::NoSuchCapture => "database error: FOREIGN KEY constraint failed"@,
        }
    }

    pub fn to_string(&self) -> (r: String)
        ensures
            r@ == self.says(),
    {
        match self {
            StoreError::Sqlite(what) => {
                let mut out = "database error: ".to_owned();
                out.append(what.as_str());
                out
            },
            StoreError::Migration(what) => {
                let mut out = "could not apply migrations: ".to_owned();
                out.append(what.as_str());
                out
            },
            StoreError::Paths(e) => e.to_string(),
            StoreError::OutdatedSchema { path } => {
                let mut out = "the database at ".to_owned();
                out.append(path.as_str());
                out.append(
                    " was created by an older version of snob and its schema is no longer compatible.\nDelete that file and run the command again.",
                );
                out
            },
            StoreError::Data(what) => what.clone(),
            StoreError::ClaimTaken => "another process has taken over this walk".to_owned(),
            StoreError::NoSuchRow => "database error: Query returned no rows".to_owned(),
            StoreError::RepeatedRunId =>
                "database error: UNIQUE constraint failed: watch_deliveries.run_id".to_owned(),
            StoreError::NoSuchCapture => "database error: FOREIGN KEY constraint failed".to_owned(),
        }
    }
}

/// Refuses a database written by a build whose schema this one cannot read.
///
/// The schema version is not zero in either, so the migration runner would
/// consider it up to date and every query would then fail. The missing view is
/// the cheapest tell; a brand new file has nothing applied yet.
pub fn reject_outdated_schema(version: i64, has_view: bool, path: &str) -> (r: Result<
    (),
    StoreError,
>)
    ensures
        match r {
            Ok(()) => version == 0 || has_view,
            Err(e) => {
                &&& version != 0 && !has_view
                &&& e matches StoreError::OutdatedSchema { path: named } && named@ == path@
            },
        },
{
    if version == 0 || has_view {
        Ok(())
    } else {
        Err(StoreError::OutdatedSchema { path: path.to_owned() })
    }
}

/// Every table, as its rows.
pub struct Store {
    pub users: Vec<users::UserRow>,
    pub history: Vec<users::HistoryRow>,
    pub snapshots: Vec<snapshots::SnapshotRow>,
    pub members: Vec<snapshots::MemberRow>,
    pub marks: Vec<watch::AccountMark>,
    pub deliveries: Vec<deliveries::DeliveryRow>,
    pub cursors: Vec<watch::RenameCursor>,
    pub sent: Vec<watch::SentRename>,
    pub runs: Vec<watch::RunRow>,
    /// When an interval schedule started counting, once it was written down.
    pub interval_seed: Option<i64>,
}

impl Store {
    /// A store with nothing in it.
    pub fn in_memory() -> (r: Store)
        ensures
            r.is_empty(),
            r.is_sound(),
    {
        Store {
            users: Vec::new(),
            history: Vec::new(),
            snapshots: Vec::new(),
            members: Vec::new(),
            marks: Vec::new(),
            deliveries: Vec::new(),
            cursors: Vec::new(),
            sent: Vec::new(),
            runs: Vec::new(),
            interval_seed: None,
        }
    }

    /// Whether there is nothing in it.
    pub open spec fn is_empty(self) -> bool {
        &&& self.users@.len() == 0
        &&& self.history@.len() == 0
        &&& self.snapshots@.len() == 0
        &&& self.members@.len() == 0
        &&& self.marks@.len() == 0
        &&& self.deliveries@.len() == 0
        &&& self.cursors@.len() == 0
        &&& self.sent@.len() == 0
        &&& self.runs@.len() == 0
        &&& self.interval_seed is None
    }

    /// What every operation keeps: no two rows for one thing, ids that grow as
    /// rows are filed, and no row that refers to one that is not there.
    pub open spec fn is_sound(self) -> bool {
        &&& users::names_are_sound(self.users@)
        &&& users::history_is_sound(self.history@)
        &&& snapshots::captures_are_sound(self.snapshots@)
        &&& snapshots::members_are_sound(self.members@, self.snapshots@)
        &&& watch::marks_are_sound(self.marks@, self.snapshots@)
        &&& deliveries::reports_are_sound(deliveries::facts(self.deliveries@))
        &&& watch::cursors_are_sound(self.cursors@)
        &&& watch::sent_is_sound(self.sent@)
        &&& watch::runs_are_sound(self.runs@)
    }
}

/// An id that a column can hold is held as it is, and a larger one as a number below zero.
pub proof fn an_ordinary_id_is_held_as_it_is(pk: Pk)
    ensures
        pk.0 <= i64::MAX ==> sql_number(pk) == pk.0,
        pk.0 > i64::MAX ==> i64::MIN <= sql_number(pk) < 0,
{
}

} // verus!
