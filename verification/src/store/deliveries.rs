//! The outbox: reports owed to the address the user chose.
//!
//! A report is queued before the mark that makes it old news moves, a retry
//! sends the bytes that were signed, the wait between attempts grows, and an
//! attempt that will never succeed is given up on.
use vstd::arithmetic::power2::{lemma2_to64, lemma_pow2_strictly_increases, pow2};
use vstd::prelude::*;
use vstd::string::*;

use crate::session::text_in;
use crate::store::snapshots::{own_text, str_in};
use crate::store::{Store, StoreError};
use crate::text::same_text;
use crate::Pk;

verus! {

/// How long to wait before the first retry. Each attempt doubles it.
pub const FIRST_BACKOFF_SECS: i64 = 60;

/// The longest wait between attempts.
pub const MAX_BACKOFF_SECS: i64 = 3_600;

/// How many attempts before a report is given up on.
pub const MAX_ATTEMPTS: i64 = 8;

/// How old a report may get before it is given up on whatever its attempt count
/// says.
pub const MAX_AGE_SECS: i64 = 86_400;

/// What became of a report so far.
#[derive(Debug, Clone, Copy, PartialEq, Eq, Structural)]
pub enum DeliveryState {
    Pending,
    Delivered,
    Expired,
}

impl DeliveryState {
    /// How it is stored.
    pub open spec fn token(self) -> Seq<char> {
        match self {
            DeliveryState::Pending => "pending"@,
            DeliveryState::Delivered => "delivered"@,
            DeliveryState::Expired => "expired"@,
        }
    }

    pub fn as_str(self) -> (r: &'static str)
        ensures
            r@ == self.token(),
    {
        match self {
            DeliveryState::Pending => "pending",
            DeliveryState::Delivered => "delivered",
            DeliveryState::Expired => "expired",
        }
    }
}

/// A report as it is stored.
#[derive(Debug, PartialEq, Eq)]
pub struct DeliveryRow {
    pub id: i64,
    pub run_id: String,
    pub account_pk: Pk,
    pub created_at: i64,
    pub body: String,
    pub state: DeliveryState,
    pub attempts: i64,
    pub next_try_at: Option<i64>,
    pub settled_at: Option<i64>,
    pub last_status: Option<u16>,
    pub last_error: Option<String>,
    pub destination: Option<String>,
}

/// What a stored report says.
pub struct DeliveryFacts {
    pub id: i64,
    pub run_id: Seq<char>,
    pub account_pk: Pk,
    pub created_at: i64,
    pub body: Seq<char>,
    pub state: DeliveryState,
    pub attempts: int,
    pub next_try_at: Option<i64>,
    pub settled_at: Option<i64>,
    pub last_status: Option<u16>,
    pub last_error: Option<Seq<char>>,
    pub destination: Option<Seq<char>>,
}

impl View for DeliveryRow {
    type V = DeliveryFacts;

    open spec fn view(&self) -> DeliveryFacts {
        DeliveryFacts {
            id: self.id,
            run_id: self.run_id@,
            account_pk: self.account_pk,
            created_at: self.created_at,
            body: self.body@,
            state: self.state,
            attempts: self.attempts as int,
            next_try_at: self.next_try_at,
            settled_at: self.settled_at,
            last_status: self.last_status,
            last_error: text_in(self.last_error),
            destination: text_in(self.destination),
        }
    }
}

/// What the stored reports say.
pub open spec fn facts(rows: Seq<DeliveryRow>) -> Seq<DeliveryFacts> {
    rows.map_values(|row: DeliveryRow| row@)
}

/// A report waiting to be sent.
#[derive(Debug, Clone, PartialEq, Eq)]
pub struct Delivery {
    pub id: i64,
    pub run_id: String,
    /// The exact bytes to send, and the ones the signature covers.
    pub body: String,
    pub attempts: i64,
    pub created_at: i64,
}

impl DeliveryRow {
    /// What is needed to send it.
    pub open spec fn shown(self) -> Delivery {
        Delivery {
            id: self.id,
            run_id: self.run_id,
            body: self.body,
            attempts: self.attempts,
            created_at: self.created_at,
        }
    }

    fn show(&self) -> (r: Delivery)
        ensures
            r == self.shown(),
    {
        Delivery {
            id: self.id,
            run_id: self.run_id.clone(),
            body: self.body.clone(),
            attempts: self.attempts,
            created_at: self.created_at,
        }
    }

    /// Whether it may be tried now, at this address. One past the age bound is
    /// not due, and one addressed nowhere goes wherever is asked.
    pub open spec fn is_due(self, now: i64, destination: Seq<char>) -> bool {
        &&& self.state == DeliveryState::Pending
        &&& self.next_try_at matches Some(at) && at <= now
        &&& self.created_at >= now - MAX_AGE_SECS
        &&& self.destination matches Some(there) ==> there@ == destination
    }

    fn due(&self, now: i64, destination: &str) -> (r: bool)
        ensures
            r == self.is_due(now, destination@),
    {
        let ready = match self.next_try_at {
            Some(at) => at <= now,
            None => false,
        };
        let here = match &self.destination {
            Some(there) => same_text(there.as_str(), destination),
            None => true,
        };
        matches!(self.state, DeliveryState::Pending) && ready && self.created_at as i128
            >= now as i128 - MAX_AGE_SECS as i128 && here
    }
}

/// Whether the ids are positive and grow as reports are queued, and no two
/// reports have one run id.
pub open spec fn reports_are_sound(rows: Seq<DeliveryFacts>) -> bool {
    &&& forall|i: int| 0 <= i < rows.len() ==> (#[trigger] rows[i]).id >= 1
    &&& forall|i: int, j: int|
        #![trigger rows[i], rows[j]]
        0 <= i < j < rows.len() ==> rows[i].id < rows[j].id && rows[i].run_id != rows[j].run_id
}

/// The largest id of a report, and zero where there is none.
pub open spec fn newest_report(rows: Seq<DeliveryFacts>) -> i64
    decreases rows.len(),
{
    if rows.len() == 0 {
        0
    } else if rows.last().id > newest_report(rows.drop_last()) {
        rows.last().id
    } else {
        newest_report(rows.drop_last())
    }
}

pub proof fn lemma_newest_report(rows: Seq<DeliveryFacts>)
    ensures
        newest_report(rows) >= 0,
        forall|i: int| 0 <= i < rows.len() ==> (#[trigger] rows[i]).id <= newest_report(rows),
    decreases rows.len(),
{
    if rows.len() > 0 {
        let rest = rows.drop_last();
        lemma_newest_report(rest);
        assert forall|i: int| 0 <= i < rows.len() implies (#[trigger] rows[i]).id
            <= newest_report(rows) by {
            if i < rest.len() {
                assert(rest[i] == rows[i]);
            }
        }
    }
}

fn find_newest_report(rows: &Vec<DeliveryRow>) -> (r: i64)
    ensures
        r == newest_report(facts(rows@)),
{
    let mut newest: i64 = 0;
    let mut i: usize = 0;
    while i < rows.len()
        invariant
            i <= rows@.len(),
            newest == newest_report(facts(rows@).take(i as int)),
        decreases rows@.len() - i,
    {
        assert(facts(rows@).take(i + 1).drop_last() == facts(rows@).take(i as int));
        if rows[i].id > newest {
            newest = rows[i].id;
        }
        i = i + 1;
    }
    assert(facts(rows@).take(rows@.len() as int) == facts(rows@));
    newest
}

/// Whether there is a report of that run.
pub open spec fn has_run(rows: Seq<DeliveryFacts>, run_id: Seq<char>) -> bool {
    exists|i: int| 0 <= i < rows.len() && (#[trigger] rows[i]).run_id == run_id
}

/// The reports after one more was queued, due at once.
pub open spec fn with_report(
    rows: Seq<DeliveryFacts>,
    run_id: Seq<char>,
    account: Pk,
    body: Seq<char>,
    at: i64,
    destination: Option<Seq<char>>,
) -> Seq<DeliveryFacts> {
    rows.push(
        DeliveryFacts {
            id: (newest_report(rows) + 1) as i64,
            run_id,
            account_pk: account,
            created_at: at,
            body,
            state: DeliveryState::Pending,
            attempts: 0,
            next_try_at: Some(at),
            settled_at: None,
            last_status: None,
            last_error: None,
            destination,
        },
    )
}

/// Queues a report, addressed to `destination`, or nowhere when this run has no
/// webhook at all. The run id is what a receiver tells two reports apart by, so
/// there is one report to each.
pub fn enqueue(
    store: &mut Store,
    run_id: &str,
    account_pk: Pk,
    body: &str,
    at: i64,
    destination: Option<&str>,
) -> (r: Result<i64, StoreError>)
    requires
        old(store).is_sound(),
        newest_report(facts(old(store).deliveries@)) < i64::MAX,
    ensures
        match r {
            Ok(id) => {
                &&& !has_run(facts(old(store).deliveries@), run_id@)
                &&& id == newest_report(facts(old(store).deliveries@)) + 1
                &&& facts(final(store).deliveries@) == with_report(
                    facts(old(store).deliveries@),
                    run_id@,
                    account_pk,
                    body@,
                    at,
                    str_in(destination),
                )
                &&& *final(store) == (Store { deliveries: final(store).deliveries, ..*old(store) })
            },
            Err(e) => {
                &&& e == StoreError::RepeatedRunId
                &&& has_run(facts(old(store).deliveries@), run_id@)
                &&& *final(store) == *old(store)
            },
        },
        final(store).is_sound(),
{
    let ghost before = facts(store.deliveries@);
    let mut i: usize = 0;
    while i < store.deliveries.len()
        invariant
            *store == *old(store),
            store.is_sound(),
            before == facts(store.deliveries@),
            i <= before.len() == store.deliveries@.len(),
            forall|j: int| 0 <= j < i ==> (#[trigger] before[j]).run_id != run_id@,
        decreases before.len() - i,
    {
        if same_text(store.deliveries[i].run_id.as_str(), run_id) {
            assert(before[i as int].run_id == run_id@);
            return Err(StoreError::RepeatedRunId);
        }
        i = i + 1;
    }
    let id: i64 = find_newest_report(&store.deliveries) + 1;
    proof {
        lemma_newest_report(before);
    }
    store.deliveries.push(
        DeliveryRow {
            id,
            run_id: run_id.to_owned(),
            account_pk,
            created_at: at,
            body: body.to_owned(),
            state: DeliveryState::Pending,
            attempts: 0,
            next_try_at: Some(at),
            settled_at: None,
            last_status: None,
            last_error: None,
            destination: own_text(destination),
        },
    );
    assert(facts(store.deliveries@) =~= with_report(
        before,
        run_id@,
        account_pk,
        body@,
        at,
        str_in(destination),
    ));
    Ok(id)
}

/// Whether a report comes after another: made later, or in the same second and
/// queued later.
pub open spec fn comes_after(a: Delivery, b: Delivery) -> bool {
    a.created_at > b.created_at || (a.created_at == b.created_at && a.id > b.id)
}

/// A report put where it belongs among some in order.
pub open spec fn placed(ordered: Seq<Delivery>, report: Delivery) -> Seq<Delivery>
    decreases ordered.len(),
{
    if ordered.len() == 0 || !comes_after(ordered.last(), report) {
        ordered.push(report)
    } else {
        placed(ordered.drop_last(), report).push(ordered.last())
    }
}

/// The reports that may be tried now, oldest first.
pub open spec fn waiting(
    rows: Seq<DeliveryRow>,
    now: i64,
    destination: Seq<char>,
) -> Seq<Delivery>
    decreases rows.len(),
{
    if rows.len() == 0 {
        Seq::empty()
    } else {
        let rest = waiting(rows.drop_last(), now, destination);
        if rows.last().is_due(now, destination) {
            placed(rest, rows.last().shown())
        } else {
            rest
        }
    }
}

proof fn lemma_placed_at(ordered: Seq<Delivery>, report: Delivery, p: int)
    requires
        0 <= p <= ordered.len(),
        forall|j: int| p <= j < ordered.len() ==> comes_after(#[trigger] ordered[j], report),
        p > 0 ==> !comes_after(ordered[p - 1], report),
    ensures
        placed(ordered, report) == ordered.insert(p, report),
    decreases ordered.len(),
{
    if p == ordered.len() {
        assert(ordered.insert(p, report) == ordered.push(report));
    } else {
        let rest = ordered.drop_last();
        assert(comes_after(ordered[ordered.len() - 1], report));
        assert forall|j: int| p <= j < rest.len() implies comes_after(
            #[trigger] rest[j],
            report,
        ) by {
            assert(rest[j] == ordered[j]);
        }
        lemma_placed_at(rest, report, p);
        assert(ordered.insert(p, report) == rest.insert(p, report).push(ordered.last()));
    }
}

fn place(ordered: &mut Vec<Delivery>, report: Delivery)
    ensures
        final(ordered)@ == placed(old(ordered)@, report),
{
    let mut p: usize = ordered.len();
    while p > 0 && (ordered[p - 1].created_at > report.created_at || (ordered[p - 1].created_at
        == report.created_at && ordered[p - 1].id > report.id))
        invariant
            ordered@ == old(ordered)@,
            p <= ordered@.len(),
            forall|j: int| p <= j < ordered@.len() ==> comes_after(#[trigger] ordered@[j], report),
        decreases p,
    {
        p = p - 1;
    }
    proof {
        lemma_placed_at(ordered@, report, p as int);
    }
    ordered.insert(p, report);
}

/// Reports that may be tried now, oldest first: they are a sequence of events
/// about one account.
///
/// Only those addressed to `destination` come back, or addressed nowhere.
pub fn due(store: &Store, now: i64, limit: usize, destination: &str) -> (r: Vec<Delivery>)
    ensures
        r@ == (if waiting(store.deliveries@, now, destination@).len() <= limit {
            waiting(store.deliveries@, now, destination@)
        } else {
            waiting(store.deliveries@, now, destination@).take(limit as int)
        }),
{
    let mut r: Vec<Delivery> = Vec::new();
    let mut i: usize = 0;
    while i < store.deliveries.len()
        invariant
            i <= store.deliveries@.len(),
            r@ == waiting(store.deliveries@.take(i as int), now, destination@),
        decreases store.deliveries@.len() - i,
    {
        assert(store.deliveries@.take(i + 1).drop_last() == store.deliveries@.take(i as int));
        if store.deliveries[i].due(now, destination) {
            place(&mut r, store.deliveries[i].show());
        }
        i = i + 1;
    }
    assert(store.deliveries@.take(store.deliveries@.len() as int) == store.deliveries@);
    if limit < r.len() {
        r.truncate(limit);
    }
    r
}

/// Where a report is.
fn locate_report(rows: &Vec<DeliveryRow>, id: i64) -> (r: Option<usize>)
    ensures
        match r {
            Some(i) => i < rows@.len() && rows@[i as int].id == id && report(facts(rows@), id)
                == Some(rows@[i as int]@),
            None => report(facts(rows@), id) is None && forall|j: int|
                0 <= j < rows@.len() ==> (#[trigger] rows@[j]).id != id,
        },
{
    let ghost all = facts(rows@);
    let mut i: usize = 0;
    assert(all.skip(0) == all);
    while i < rows.len()
        invariant
            all == facts(rows@),
            i <= rows@.len(),
            report(all, id) == report(all.skip(i as int), id),
            forall|j: int| 0 <= j < i ==> (#[trigger] rows@[j]).id != id,
        decreases rows@.len() - i,
    {
        assert(all.skip(i as int).drop_first() == all.skip(i + 1));
        if rows[i].id == id {
            return Some(i);
        }
        i = i + 1;
    }
    None
}

/// The report of that id.
pub open spec fn report(rows: Seq<DeliveryFacts>, id: i64) -> Option<DeliveryFacts>
    decreases rows.len(),
{
    if rows.len() == 0 {
        None
    } else if rows.first().id == id {
        Some(rows.first())
    } else {
        report(rows.drop_first(), id)
    }
}

/// A report that arrived.
pub open spec fn arrived(row: DeliveryFacts, status: u16, at: i64) -> DeliveryFacts {
    DeliveryFacts {
        state: DeliveryState::Delivered,
        settled_at: Some(at),
        next_try_at: None,
        attempts: row.attempts + 1,
        last_status: Some(status),
        last_error: None,
        ..row
    }
}

/// The reports with one of them changed.
pub open spec fn changed(rows: Seq<DeliveryFacts>, id: i64, to: DeliveryFacts) -> Seq<
    DeliveryFacts,
> {
    rows.map_values(
        |row: DeliveryFacts|
            if row.id == id {
                to
            } else {
                row
            },
    )
}

/// Records that a report arrived.
pub fn delivered(store: &mut Store, id: i64, status: u16, at: i64)
    requires
        old(store).is_sound(),
        report(facts(old(store).deliveries@), id) matches Some(row) ==> row.attempts < i64::MAX,
    ensures
        facts(final(store).deliveries@) == match report(facts(old(store).deliveries@), id) {
            Some(row) => changed(facts(old(store).deliveries@), id, arrived(row, status, at)),
            None => facts(old(store).deliveries@),
        },
        *final(store) == (Store { deliveries: final(store).deliveries, ..*old(store) }),
        final(store).is_sound(),
{
    let ghost before = facts(store.deliveries@);
    if let Some(i) = locate_report(&store.deliveries, id) {
        let attempts: i64 = store.deliveries[i].attempts;
        store.deliveries[i].state = DeliveryState::Delivered;
        store.deliveries[i].settled_at = Some(at);
        store.deliveries[i].next_try_at = None;
        store.deliveries[i].attempts = attempts + 1;
        store.deliveries[i].last_status = Some(status);
        store.deliveries[i].last_error = None;
        proof {
            lemma_one_changed(before, facts(store.deliveries@), i as int, id);
        }
    }
}

proof fn lemma_one_changed(before: Seq<DeliveryFacts>, after: Seq<DeliveryFacts>, i: int, id: i64)
    requires
        reports_are_sound(before),
        0 <= i < before.len() == after.len(),
        before[i].id == id,
        after[i].id == id,
        after[i].run_id == before[i].run_id,
        forall|j: int| 0 <= j < before.len() && j != i ==> #[trigger] after[j] == before[j],
    ensures
        after == changed(before, id, after[i]),
        reports_are_sound(after),
{
    assert forall|j: int| 0 <= j < before.len() && j != i implies (#[trigger] before[j]).id != id by {
        if j < i {
            assert(before[j].id < before[i].id);
        } else {
            assert(before[i].id < before[j].id);
        }
    }
    assert(after =~= changed(before, id, after[i]));
    assert forall|j: int| 0 <= j < after.len() implies (#[trigger] after[j]).id == before[j].id
        && after[j].run_id == before[j].run_id by {}
}

/// What happened to a report that did not arrive.
#[derive(Debug, Clone, Copy, PartialEq, Eq, Structural)]
pub enum Outcome {
    /// It will be tried again, at this moment.
    Retrying(i64),
    /// It will not.
    GaveUp(GaveUp),
}

/// Why a report is given up on.
#[derive(Debug, Clone, Copy, PartialEq, Eq, Structural)]
pub enum GaveUp {
    /// There was no request to send, so there is none to send again. Not that
    /// the far end said no.
    Refused,
    OutOfAttempts,
    TooOld,
}

/// How long to wait before attempt number `attempts + 1`: doubling, capped.
pub open spec fn wait_after(attempts: int) -> int {
    let n = if attempts < 1 {
        1
    } else {
        attempts
    };
    if FIRST_BACKOFF_SECS * pow2((n - 1) as nat) < MAX_BACKOFF_SECS {
        FIRST_BACKOFF_SECS * pow2((n - 1) as nat)
    } else {
        MAX_BACKOFF_SECS as int
    }
}

pub fn backoff(attempts: i64) -> (r: i64)
    ensures
        r == wait_after(attempts as int),
{
    proof {
        lemma2_to64();
        if attempts > 7 {
            lemma_pow2_strictly_increases(6, (attempts - 1) as nat);
        }
    }
    if attempts <= 1 {
        60
    } else if attempts == 2 {
        120
    } else if attempts == 3 {
        240
    } else if attempts == 4 {
        480
    } else if attempts == 5 {
        960
    } else if attempts == 6 {
        1_920
    } else {
        MAX_BACKOFF_SECS
    }
}

/// What comes of one more failed attempt.
pub open spec fn verdict(row: DeliveryFacts, permanent: bool, now: i64) -> Outcome {
    if permanent {
        Outcome::GaveUp(GaveUp::Refused)
    } else if row.attempts + 1 >= MAX_ATTEMPTS {
        Outcome::GaveUp(GaveUp::OutOfAttempts)
    } else if now - row.created_at >= MAX_AGE_SECS {
        Outcome::GaveUp(GaveUp::TooOld)
    } else {
        Outcome::Retrying((now + wait_after(row.attempts + 1)) as i64)
    }
}

/// A report after one more failed attempt.
pub open spec fn after_failure(
    row: DeliveryFacts,
    status: Option<u16>,
    error: Seq<char>,
    outcome: Outcome,
    now: i64,
) -> DeliveryFacts {
    match outcome {
        Outcome::Retrying(next) => DeliveryFacts {
            attempts: row.attempts + 1,
            next_try_at: Some(next),
            last_status: status,
            last_error: Some(error),
            ..row
        },
        Outcome::GaveUp(_) => DeliveryFacts {
            state: DeliveryState::Expired,
            settled_at: Some(now),
            next_try_at: None,
            attempts: row.attempts + 1,
            last_status: status,
            last_error: Some(error),
            ..row
        },
    }
}

/// Records a failed attempt and decides what happens next.
///
/// `permanent` says that there was no request to send. What bounds the retrying
/// otherwise is [`MAX_ATTEMPTS`] and [`MAX_AGE_SECS`], not a guess about a
/// status code.
pub fn failed(
    store: &mut Store,
    id: i64,
    status: Option<u16>,
    error: &str,
    permanent: bool,
    now: i64,
) -> (r: Result<Outcome, StoreError>)
    requires
        old(store).is_sound(),
        permanent || now <= i64::MAX - MAX_BACKOFF_SECS,
        report(facts(old(store).deliveries@), id) matches Some(row) ==> row.attempts < i64::MAX,
    ensures
        match report(facts(old(store).deliveries@), id) {
            Some(row) => {
                let outcome = verdict(row, permanent, now);
                &&& r == Ok::<Outcome, StoreError>(outcome)
                &&& facts(final(store).deliveries@) == changed(
                    facts(old(store).deliveries@),
                    id,
                    after_failure(row, status, error@, outcome, now),
                )
            },
            None => r == Err::<Outcome, StoreError>(StoreError::NoSuchRow) && *final(store) == *old(
                store,
            ),
        },
        *final(store) == (Store { deliveries: final(store).deliveries, ..*old(store) }),
        final(store).is_sound(),
{
    let ghost before = facts(store.deliveries@);
    let i: usize = match locate_report(&store.deliveries, id) {
        Some(i) => i,
        None => return Err(StoreError::NoSuchRow),
    };
    let attempts: i64 = store.deliveries[i].attempts + 1;
    let created_at: i64 = store.deliveries[i].created_at;
    let outcome = if permanent {
        Outcome::GaveUp(GaveUp::Refused)
    } else if attempts >= MAX_ATTEMPTS {
        Outcome::GaveUp(GaveUp::OutOfAttempts)
    } else if now as i128 - created_at as i128 >= MAX_AGE_SECS as i128 {
        Outcome::GaveUp(GaveUp::TooOld)
    } else {
        Outcome::Retrying(now + backoff(attempts))
    };
    store.deliveries[i].attempts = attempts;
    store.deliveries[i].last_status = status;
    store.deliveries[i].last_error = Some(error.to_owned());
    match outcome {
        Outcome::Retrying(next) => {
            store.deliveries[i].next_try_at = Some(next);
        },
        Outcome::GaveUp(_) => {
            store.deliveries[i].state = DeliveryState::Expired;
            store.deliveries[i].settled_at = Some(now);
            store.deliveries[i].next_try_at = None;
        },
    }
    proof {
        lemma_one_changed(before, facts(store.deliveries@), i as int, id);
    }
    Ok(outcome)
}

/// Whether a report is still owed.
pub open spec fn is_owed(row: DeliveryFacts) -> bool {
    row.state == DeliveryState::Pending
}

/// How many reports are waiting.
pub fn pending(store: &Store) -> (r: usize)
    ensures
        r == facts(store.deliveries@).filter(|row: DeliveryFacts| is_owed(row)).len(),
{
    let ghost all = facts(store.deliveries@);
    let mut count: usize = 0;
    let mut i: usize = 0;
    assert(all.take(0).filter(|row: DeliveryFacts| is_owed(row)).len() == 0) by {
        reveal(Seq::filter);
    }
    while i < store.deliveries.len()
        invariant
            all == facts(store.deliveries@),
            i <= all.len() == store.deliveries@.len(),
            count <= i,
            count == all.take(i as int).filter(|row: DeliveryFacts| is_owed(row)).len(),
        decreases all.len() - i,
    {
        proof {
            reveal(Seq::filter);
            assert(all.take(i + 1).drop_last() == all.take(i as int));
        }
        if matches!(store.deliveries[i].state, DeliveryState::Pending) {
            count = count + 1;
        }
        i = i + 1;
    }
    assert(all.take(all.len() as int) == all);
    count
}

/// The state of one report.
pub fn state(store: &Store, id: i64) -> (r: Option<String>)
    ensures
        text_in(r) == match report(facts(store.deliveries@), id) {
            Some(row) => Some(row.state.token()),
            None => None,
        },
{
    match locate_report(&store.deliveries, id) {
        Some(i) => Some(store.deliveries[i].state.as_str().to_owned()),
        None => None,
    }
}

/// Whether reports stand oldest first.
pub open spec fn is_oldest_first(reports: Seq<Delivery>) -> bool {
    forall|i: int, j: int|
        0 <= i < j < reports.len() ==> !comes_after(#[trigger] reports[i], #[trigger] reports[j])
}

proof fn lemma_placed(ordered: Seq<Delivery>, report: Delivery)
    requires
        is_oldest_first(ordered),
    ensures
        is_oldest_first(placed(ordered, report)),
        placed(ordered, report).to_multiset() == ordered.to_multiset().insert(report),
        forall|i: int|
            0 <= i < placed(ordered, report).len() ==> #[trigger] placed(ordered, report)[i]
                == report || ordered.contains(placed(ordered, report)[i]),
    decreases ordered.len(),
{
    broadcast use vstd::seq_lib::group_to_multiset_ensures;

    let all = placed(ordered, report);
    if ordered.len() == 0 || !comes_after(ordered.last(), report) {
        assert forall|i: int, j: int| 0 <= i < j < all.len() implies !comes_after(
            #[trigger] all[i],
            #[trigger] all[j],
        ) by {
            if j == ordered.len() && i < ordered.len() - 1 {
                assert(!comes_after(ordered[i], ordered[ordered.len() - 1]));
            }
        }
        assert forall|i: int| 0 <= i < all.len() implies #[trigger] all[i] == report
            || ordered.contains(all[i]) by {
            if i < ordered.len() {
                assert(all[i] == ordered[i]);
            }
        }
    } else {
        let rest = ordered.drop_last();
        let last = ordered.last();
        assert forall|i: int, j: int| 0 <= i < j < rest.len() implies !comes_after(
            #[trigger] rest[i],
            #[trigger] rest[j],
        ) by {
            assert(rest[i] == ordered[i] && rest[j] == ordered[j]);
        }
        lemma_placed(rest, report);
        let sofar = placed(rest, report);
        assert(rest.push(last) == ordered);
        assert forall|i: int| 0 <= i < sofar.len() implies !comes_after(#[trigger] sofar[i], last)
            && (sofar[i] == report || ordered.contains(sofar[i])) by {
            if sofar[i] != report {
                let k = choose|k: int| 0 <= k < rest.len() && rest[k] == sofar[i];
                assert(ordered[k] == rest[k]);
                assert(!comes_after(ordered[k], ordered[ordered.len() - 1]));
            }
        }
        assert forall|i: int, j: int| 0 <= i < j < all.len() implies !comes_after(
            #[trigger] all[i],
            #[trigger] all[j],
        ) by {
            assert(all[i] == sofar[i]);
            if j < sofar.len() {
                assert(all[j] == sofar[j]);
            }
        }
        assert forall|i: int| 0 <= i < all.len() implies #[trigger] all[i] == report
            || ordered.contains(all[i]) by {
            if i < sofar.len() {
                assert(all[i] == sofar[i]);
            } else {
                assert(ordered[ordered.len() - 1] == all[i]);
            }
        }
        assert(all.to_multiset() == ordered.to_multiset().insert(report)) by {
            assert(all.to_multiset() == sofar.to_multiset().insert(last));
            assert(ordered.to_multiset() == rest.to_multiset().insert(last));
            assert(rest.to_multiset().insert(report).insert(last) =~= rest.to_multiset().insert(
                last,
            ).insert(report));
        }
    }
}

/// Reports come out oldest first, and those that come out are the due ones, each
/// as often as it is there.
pub proof fn reports_come_out_oldest_first(rows: Seq<DeliveryRow>, now: i64, destination: Seq<char>)
    ensures
        is_oldest_first(waiting(rows, now, destination)),
        waiting(rows, now, destination).to_multiset() == rows.filter(
            |row: DeliveryRow| row.is_due(now, destination),
        ).map_values(|row: DeliveryRow| row.shown()).to_multiset(),
    decreases rows.len(),
{
    broadcast use vstd::seq_lib::group_to_multiset_ensures;

    reveal(Seq::filter);
    let is_due = |row: DeliveryRow| row.is_due(now, destination);
    let shown = |row: DeliveryRow| row.shown();
    if rows.len() == 0 {
        assert(rows.filter(is_due).map_values(shown) =~= Seq::<Delivery>::empty());
    } else {
        let rest = rows.drop_last();
        reports_come_out_oldest_first(rest, now, destination);
        if rows.last().is_due(now, destination) {
            lemma_placed(waiting(rest, now, destination), rows.last().shown());
            assert(rows.filter(is_due).map_values(shown) =~= rest.filter(is_due).map_values(
                shown,
            ).push(rows.last().shown()));
        }
    }
}

/// A report that arrived, or was given up on, is not due again, whenever and
/// wherever it is asked for.
pub proof fn a_settled_report_is_never_due(row: DeliveryRow, now: i64, destination: Seq<char>)
    requires
        row.state != DeliveryState::Pending,
    ensures
        !row.is_due(now, destination),
{
}

/// A failure that waiting can fix is waited on: the report is not due before the
/// moment it is put off to, and is still owed.
pub proof fn a_report_is_not_tried_again_too_soon(
    before: DeliveryRow,
    after: DeliveryRow,
    status: Option<u16>,
    error: Seq<char>,
    now: i64,
    later: i64,
    destination: Seq<char>,
)
    requires
        now <= i64::MAX - MAX_BACKOFF_SECS,
        is_owed(before@),
        verdict(before@, false, now) is Retrying,
        after@ == after_failure(before@, status, error, verdict(before@, false, now), now),
        later < now + wait_after(before.attempts + 1),
    ensures
        is_owed(after@),
        !after.is_due(later, destination),
        verdict(before@, false, now)->Retrying_0 > now,
{
    lemma_wait(before.attempts + 1);
    assert(after@.next_try_at == after.next_try_at);
}

proof fn lemma_wait(attempts: int)
    ensures
        FIRST_BACKOFF_SECS <= wait_after(attempts) <= MAX_BACKOFF_SECS,
{
    let n = if attempts < 1 {
        1
    } else {
        attempts
    };
    lemma2_to64();
    if n > 1 {
        lemma_pow2_strictly_increases(0, (n - 1) as nat);
    }
}

/// The wait between attempts grows and never shrinks, and stops growing.
pub proof fn the_wait_grows_and_then_stops_growing(a: int, b: int)
    requires
        a <= b,
    ensures
        FIRST_BACKOFF_SECS <= wait_after(a) <= wait_after(b) <= MAX_BACKOFF_SECS,
{
    lemma_wait(a);
    lemma_wait(b);
    let m = if a < 1 {
        1
    } else {
        a
    };
    let n = if b < 1 {
        1
    } else {
        b
    };
    if m < n {
        lemma_pow2_strictly_increases((m - 1) as nat, (n - 1) as nat);
    }
}

/// No report is retried for ever: by the last attempt it is given up on, whatever
/// the moment.
pub proof fn a_report_runs_out_of_attempts(row: DeliveryFacts, permanent: bool, now: i64)
    requires
        row.attempts >= MAX_ATTEMPTS - 1,
    ensures
        verdict(row, permanent, now) is GaveUp,
{
}

/// What is sent is what was queued, to the letter, however often it failed in
/// between.
pub proof fn a_retry_sends_what_was_queued(
    row: DeliveryFacts,
    status: Option<u16>,
    error: Seq<char>,
    outcome: Outcome,
    now: i64,
)
    ensures
        after_failure(row, status, error, outcome, now).body == row.body,
        after_failure(row, status, error, outcome, now).run_id == row.run_id,
        after_failure(row, status, error, outcome, now).created_at == row.created_at,
{
}

} // verus!
