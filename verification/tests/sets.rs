use snob_core::model::User;
use snob_core::sets::{difference, intersection};
use snob_core::Pk;

fn users(pks: &[u64]) -> Vec<User> {
    pks.iter()
        .map(|&pk| User {
            pk: Pk::new(pk),
            username: format!("u{pk}"),
            full_name: None,
            is_private: None,
            is_verified: None,
            pfp_url: None,
        })
        .collect()
}

fn pks(us: &[User]) -> Vec<u64> {
    us.iter().map(|u| u.pk.get()).collect()
}

#[test]
fn difference_keeps_the_order_of_the_first_list() {
    let a = users(&[3, 1, 2, 4]);
    let b = users(&[2, 4]);
    assert_eq!(pks(&difference(&a, &b)), vec![3, 1]);
}

#[test]
fn intersection_keeps_the_order_of_the_first_list() {
    let a = users(&[3, 1, 2, 4]);
    let b = users(&[4, 2]);
    assert_eq!(pks(&intersection(&a, &b)), vec![2, 4]);
}

#[test]
fn an_empty_list_gives_the_expected_result() {
    let a = users(&[1, 2]);
    assert_eq!(pks(&difference(&a, &[])), vec![1, 2]);
    assert!(intersection(&a, &[]).is_empty());
    assert!(difference(&[], &a).is_empty());
}

#[test]
fn lists_are_crossed_by_id_and_not_by_username() {
    let before = users(&[7]);
    let mut after = users(&[7]);
    after[0].username = "renamed_themselves".into();

    assert!(difference(&before, &after).is_empty());
    assert_eq!(pks(&intersection(&before, &after)), vec![7]);
}

#[test]
fn two_identical_lists_leave_no_difference() {
    let a = users(&[1, 2, 3]);
    assert!(difference(&a, &a).is_empty());
    assert_eq!(pks(&intersection(&a, &a)), vec![1, 2, 3]);
}

#[test]
fn a_list_is_split_into_those_here_and_those_not() {
    let a = users(&[5, 6, 7, 8]);
    let b = users(&[8, 5]);
    let mut both = pks(&intersection(&a, &b));
    both.extend(pks(&difference(&a, &b)));
    both.sort_unstable();
    assert_eq!(both, vec![5, 6, 7, 8]);
}
