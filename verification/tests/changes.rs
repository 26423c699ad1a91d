use snob_core::clock::Epoch;
use snob_core::model::{ListKind, User};
use snob_core::watch::outcome::{RecordedOutcome, RunOutcome};
use snob_core::watch::{Basis, Changes, ListDiff, Rename};
use snob_core::Pk;

fn users(pks: &[u64]) -> Vec<User> {
    pks.iter()
        .map(|&pk| User {
            pk: Pk::new(pk),
            username: format!("u{pk}"),
            full_name: None,
            is_private: None,
            is_verified: None,
            pfp_url: None,
        })
        .collect()
}

fn pks(us: &[User]) -> Vec<u64> {
    us.iter().map(|u| u.pk.get()).collect()
}

#[test]
fn a_capture_older_than_the_mark_is_not_compared_backwards() {
    let basis = Basis::decide(Some(101), Some(100)).expect("something is stored");
    assert_eq!(
        basis,
        Basis::Unchanged { snapshot_id: 101 },
        "an older capture has nothing to add, and must not move the mark back"
    );
    assert_eq!(basis.mark_to(), 101, "the mark does not regress");

    // The forward case is untouched.
    assert_eq!(
        Basis::decide(Some(100), Some(101)),
        Some(Basis::Compare { before: 100, after: 101 })
    );
}

#[test]
fn an_arrival_is_gained_and_a_departure_is_lost() {
    let before = users(&[1, 2, 3]);
    let after = users(&[2, 3, 4]);
    let diff = ListDiff::between(&before, &after);

    assert_eq!(pks(&diff.gained), vec![4]);
    assert_eq!(pks(&diff.lost), vec![1]);
    assert_eq!(diff.len(), 2);
}

#[test]
fn two_identical_captures_leave_nothing_to_report() {
    let list = users(&[1, 2, 3]);
    assert!(ListDiff::between(&list, &list).is_empty());
}

#[test]
fn somebody_who_renamed_themselves_neither_arrived_nor_left() {
    let before = users(&[7]);
    let mut after = users(&[7]);
    after[0].username = "renamed_themselves".into();

    assert!(ListDiff::between(&before, &after).is_empty());
}

#[test]
fn nothing_stored_is_nothing_to_compare() {
    assert_eq!(Basis::decide(None, None), None);
    assert_eq!(Basis::decide(Some(1), None), None);
}

#[test]
fn a_first_run_is_a_baseline_and_still_moves_the_mark() {
    let basis = Basis::decide(None, Some(9)).unwrap();
    assert_eq!(basis, Basis::Baseline { snapshot_id: 9 });
    assert_eq!(basis.mark_to(), 9);
}

#[test]
fn a_mark_on_the_newest_capture_is_unchanged() {
    assert_eq!(Basis::decide(Some(9), Some(9)), Some(Basis::Unchanged { snapshot_id: 9 }));
}

#[test]
fn a_newer_capture_is_compared_against_the_mark_in_that_order() {
    let basis = Basis::decide(Some(4), Some(9)).unwrap();
    assert_eq!(basis, Basis::Compare { before: 4, after: 9 });
    assert_eq!(basis.mark_to(), 9);
}

#[test]
fn a_run_that_found_nothing_is_empty() {
    assert!(Changes::default().is_empty());
    assert_eq!(Changes::default().len(), 0);
}

#[test]
fn a_rename_alone_still_counts_as_a_change() {
    let changes = Changes {
        renamed: vec![Rename {
            pk: Pk::new(7),
            history_id: 1,
            from: "before".into(),
            to: "after".into(),
            at: Epoch::new(1_000),
        }],
        ..Default::default()
    };
    assert!(!changes.is_empty());
    assert_eq!(changes.len(), 1);
}

#[test]
fn each_list_is_reachable_by_its_kind() {
    let changes = Changes {
        followers: ListDiff { gained: users(&[1]), lost: vec![] },
        following: ListDiff { gained: vec![], lost: users(&[2]) },
        renamed: vec![],
    };

    assert_eq!(changes.of(ListKind::Followers).gained.len(), 1);
    assert_eq!(changes.of(ListKind::Following).lost.len(), 1);
    assert_eq!(changes.len(), 2);
}

#[test]
fn every_outcome_reads_back_from_the_token_it_writes() {
    assert_eq!(RunOutcome::ALL.len(), 6, "an outcome was added or dropped");
    for outcome in RunOutcome::ALL {
        assert_eq!(
            RunOutcome::from_token(outcome.as_str()),
            Some(outcome),
            "{outcome:?} writes {:?} and does not read back from it",
            outcome.as_str()
        );
    }
}

#[test]
fn no_two_outcomes_are_spelled_the_same() {
    let mut tokens: Vec<&str> = RunOutcome::ALL.iter().map(|o| o.as_str()).collect();
    tokens.sort_unstable();
    tokens.dedup();
    assert_eq!(tokens.len(), RunOutcome::ALL.len(), "a token is shared");
}

#[test]
fn a_token_from_another_build_stays_the_token_it_was() {
    let read = RecordedOutcome::from_token("rate-limited");
    assert_eq!(read, RecordedOutcome::Unknown("rate-limited".into()));
    assert_eq!(read.known(), None);
    assert_ne!(read, RunOutcome::RateLimited);
    assert_ne!(read, RunOutcome::Success);
    assert_eq!(
        read.as_str(),
        "rate-limited",
        "what is printed back is what is really in the column"
    );
}

#[test]
fn a_token_this_build_writes_reads_back_as_the_outcome() {
    let read = RecordedOutcome::from_token("rate_limited");
    assert_eq!(read.known(), Some(RunOutcome::RateLimited));
    assert_eq!(read, RunOutcome::RateLimited);
    assert_eq!(read.to_string(), "rate_limited");
}

#[test]
fn a_run_that_went_well_is_spelled_ok() {
    assert_eq!(RunOutcome::Success.as_str(), "ok");
    assert_eq!(RunOutcome::from_token("Ok"), None);
    assert_eq!(RecordedOutcome::from(RunOutcome::Success), RunOutcome::Success);
}

#[test]
fn a_mark_moves_once_and_stays() {
    let basis = Basis::decide(Some(4), Some(9)).unwrap();
    let again = Basis::decide(Some(basis.mark_to()), Some(9)).unwrap();
    assert_eq!(again, Basis::Unchanged { snapshot_id: 9 });
}

#[test]
fn nobody_arrives_and_leaves_at_once() {
    let diff = ListDiff::between(&users(&[1, 2, 3]), &users(&[3, 4, 5]));
    for gained in pks(&diff.gained) {
        assert!(!pks(&diff.lost).contains(&gained));
    }
    assert_eq!(diff.clone(), diff);
}
