use snob_core::store::deliveries::{
    backoff, delivered, due, enqueue, failed, pending, state, GaveUp, Outcome,
    FIRST_BACKOFF_SECS, MAX_AGE_SECS, MAX_ATTEMPTS, MAX_BACKOFF_SECS,
};
use snob_core::store::users::ensure;
use snob_core::store::{Store, StoreError};
use snob_core::Pk;

const ME: Pk = Pk(42);
/// The address these reports are addressed to.
const HERE: &str = "https://receiver.example";

fn store() -> Store {
    let mut db = Store::in_memory();
    ensure(&mut db, ME);
    db
}

#[test]
fn the_age_a_report_stops_being_news_at_is_the_documented_one() {
    assert_eq!(MAX_AGE_SECS, 24 * 3_600);
}

fn queued(db: &mut Store, run_id: &str, at: i64) -> i64 {
    enqueue(db, run_id, ME, r#"{"a":1}"#, at, Some(HERE)).unwrap()
}

/// A retry sends the string that was signed, not a fresh rendering.
#[test]
fn the_body_that_comes_back_is_the_body_that_went_in() {
    let mut db = store();
    let body = r#"{"schema":1,"events":{"followers_gained":[]}}"#;
    enqueue(&mut db, "run-1", ME, body, 1_000, Some(HERE)).unwrap();

    let waiting = due(&db, 1_000, 10, HERE);
    assert_eq!(waiting[0].body, body);
}

#[test]
fn a_queued_report_is_due_at_once() {
    let mut db = store();
    queued(&mut db, "run-1", 1_000);
    assert_eq!(due(&db, 1_000, 10, HERE).len(), 1);
    assert_eq!(pending(&db), 1);
}

#[test]
fn a_delivered_report_is_not_due_again() {
    let mut db = store();
    let id = queued(&mut db, "run-1", 1_000);

    delivered(&mut db, id, 200, 1_010);
    assert!(due(&db, 2_000, 10, HERE).is_empty());
    assert_eq!(state(&db, id).unwrap(), "delivered");
    assert_eq!(pending(&db), 0);
}

/// A failure that waiting can fix is waited on, and it is not tried again in the
/// meantime.
#[test]
fn a_temporary_failure_is_retried_later_and_not_sooner() {
    let mut db = store();
    let id = queued(&mut db, "run-1", 1_000);

    let Outcome::Retrying(next) = failed(&mut db, id, Some(503), "busy", false, 1_000).unwrap()
    else {
        panic!("a 503 is worth another try");
    };
    assert_eq!(next, 1_000 + FIRST_BACKOFF_SECS);
    assert!(due(&db, next - 1, 10, HERE).is_empty());
    assert_eq!(due(&db, next, 10, HERE).len(), 1);
}

/// A request that could not be sent at all is not sent again.
#[test]
fn a_request_that_cannot_be_sent_is_not_retried_at_all() {
    let mut db = store();
    let id = queued(&mut db, "run-1", 1_000);

    assert_eq!(
        failed(&mut db, id, Some(0), "not a header", true, 1_000).unwrap(),
        Outcome::GaveUp(GaveUp::Refused)
    );
    assert!(due(&db, 999_999, 10, HERE).is_empty());
    assert_eq!(state(&db, id).unwrap(), "expired");
}

/// The wait grows, and it stops growing.
#[test]
fn the_wait_grows_and_then_stops_growing() {
    let waits: Vec<i64> = (1..=6).map(backoff).collect();
    assert_eq!(waits, vec![60, 120, 240, 480, 960, 1_920]);
    assert_eq!(backoff(20), MAX_BACKOFF_SECS, "and it is capped");
    assert!(backoff(i64::MAX) > 0, "a shift that big must not wrap");
    assert_eq!(backoff(7), 3_600);
    assert_eq!(backoff(0), 60);
    assert_eq!(backoff(i64::MIN), 60);
}

/// A queue that never drains is a queue that grows forever.
#[test]
fn a_report_runs_out_of_attempts_rather_than_being_retried_forever() {
    let mut db = store();
    let id = queued(&mut db, "run-1", 1_000);

    let mut now = 1_000;
    for _ in 1..MAX_ATTEMPTS {
        let Outcome::Retrying(next) = failed(&mut db, id, Some(500), "boom", false, now).unwrap()
        else {
            panic!("not out of attempts yet");
        };
        now = next;
    }

    assert_eq!(
        failed(&mut db, id, Some(500), "boom", false, now).unwrap(),
        Outcome::GaveUp(GaveUp::OutOfAttempts)
    );
    assert!(due(&db, now + 999_999, 10, HERE).is_empty());
}

/// The other bound, and it catches a different failure.
#[test]
fn a_report_too_old_to_be_news_is_given_up_on() {
    let mut db = store();
    let id = queued(&mut db, "run-1", 1_000);

    assert_eq!(
        failed(&mut db, id, None, "connection refused", false, 1_000 + MAX_AGE_SECS).unwrap(),
        Outcome::GaveUp(GaveUp::TooOld)
    );
}

/// They go out in the order they happened.
#[test]
fn reports_come_out_oldest_first() {
    let mut db = store();
    queued(&mut db, "later", 2_000);
    queued(&mut db, "earlier", 1_000);

    let order: Vec<String> = due(&db, 3_000, 10, HERE).into_iter().map(|d| d.run_id).collect();
    assert_eq!(order, vec!["earlier", "later"]);
}

/// A report belongs to the address it was addressed to.
#[test]
fn a_report_is_only_due_at_the_address_it_was_addressed_to() {
    let mut db = store();
    let mine = enqueue(&mut db, "run-1", ME, "{}", 1_000, Some(HERE)).unwrap();
    let elsewhere =
        enqueue(&mut db, "run-2", ME, "{}", 1_000, Some("https://bin.example")).unwrap();
    // Queued without an address, so nothing can say where it belongs.
    let legacy = enqueue(&mut db, "run-3", ME, "{}", 1_000, None).unwrap();

    let here: Vec<i64> = due(&db, 1_000, 10, HERE).iter().map(|d| d.id).collect();
    assert_eq!(here, vec![mine, legacy]);

    let there: Vec<i64> =
        due(&db, 1_000, 10, "https://bin.example").iter().map(|d| d.id).collect();
    assert_eq!(there, vec![elsewhere, legacy]);
}

/// The id the receiver deduplicates on has to be unique.
#[test]
fn two_reports_cannot_share_a_run_id() {
    let mut db = store();
    queued(&mut db, "run-1", 1_000);
    assert!(
        enqueue(&mut db, "run-1", ME, "{}", 2_000, None).is_err(),
        "the id a receiver deduplicates on must be unique"
    );
    assert_eq!(pending(&db), 1, "and the refused one is not there");
}

#[test]
fn only_so_many_are_taken_and_none_past_its_age() {
    let mut db = store();
    for n in 0..4 {
        queued(&mut db, &format!("run-{n}"), 1_000 + n);
    }
    assert_eq!(due(&db, 2_000, 2, HERE).len(), 2);
    assert_eq!(due(&db, 2_000, 0, HERE).len(), 0);
    assert_eq!(due(&db, 999, 10, HERE).len(), 0, "not before it was made");
    assert_eq!(due(&db, 1_001 + MAX_AGE_SECS, 10, HERE).len(), 3, "one is too old");
}

#[test]
fn a_report_that_is_not_there_cannot_fail() {
    let mut db = store();
    assert_eq!(failed(&mut db, 9, None, "x", false, 0), Err(StoreError::NoSuchRow));
    assert_eq!(state(&db, 9), None);
    delivered(&mut db, 9, 200, 0);
    assert!(db.deliveries.is_empty());
}

#[test]
fn what_an_attempt_leaves_behind_is_recorded() {
    let mut db = store();
    let id = queued(&mut db, "run-1", 1_000);
    failed(&mut db, id, Some(503), "busy", false, 1_000).unwrap();
    let row = &db.deliveries[0];
    assert_eq!((row.attempts, row.last_status), (1, Some(503)));
    assert_eq!(row.last_error.as_deref(), Some("busy"));
    delivered(&mut db, id, 204, 1_100);
    let row = &db.deliveries[0];
    assert_eq!((row.attempts, row.last_status), (2, Some(204)));
    assert_eq!((row.settled_at, row.next_try_at), (Some(1_100), None));
    assert_eq!(row.last_error, None);
}
