//! Set operations between two account lists.
//!
//! Comparison is always by id, never by username: usernames change, and
//! crossing two lists by name would make anyone who renamed themselves between
//! captures look like they left and someone else arrived.
use std::collections::HashSet;
use vstd::prelude::*;

use crate::model::User;
use crate::store::snapshots::lemma_filter_order;
use crate::Pk;

verus! {

/// Whether an account is in a list.
pub open spec fn lists(users: Seq<User>, pk: Pk) -> bool {
    exists|i: int| 0 <= i < users.len() && (#[trigger] users[i]).pk == pk
}

/// Those in one list and not in another, in the order of the first.
pub open spec fn missing_from(a: Seq<User>, b: Seq<User>) -> Seq<User> {
    a.filter(|u: User| !lists(b, u.pk))
}

/// Those in both lists, in the order of the first.
pub open spec fn common_to(a: Seq<User>, b: Seq<User>) -> Seq<User> {
    a.filter(|u: User| lists(b, u.pk))
}

/// The ids in a list.
fn ids(users: &[User]) -> (set: HashSet<u64>)
    ensures
        forall|pk: Pk| #[trigger] lists(users@, pk) <==> set@.contains(pk.0),
{
    broadcast use vstd::std_specs::hash::group_hash_axioms;

    let mut set: HashSet<u64> = HashSet::new();
    let mut i: usize = 0;
    while i < users.len()
        invariant
            i <= users@.len(),
            forall|pk: Pk| #[trigger] lists(users@.take(i as int), pk) <==> set@.contains(pk.0),
        decreases users@.len() - i,
    {
        broadcast use vstd::std_specs::hash::group_hash_axioms;

        let pk = users[i].pk;
        let ghost before = set@;
        set.insert(pk.0);
        proof {
            let (x, y) = (users@.take(i as int), users@.take(i + 1));
            assert forall|p: Pk| #[trigger] lists(y, p) <==> set@.contains(p.0) by {
                if lists(x, p) {
                    let j = choose|j: int| 0 <= j < x.len() && (#[trigger] x[j]).pk == p;
                    assert(y[j].pk == p);
                }
                if p == pk {
                    assert(y[i as int].pk == p);
                }
                if lists(y, p) {
                    let j = choose|j: int| 0 <= j < y.len() && (#[trigger] y[j]).pk == p;
                    if j < i {
                        assert(x[j].pk == p);
                    }
                }
            }
        }
        i = i + 1;
    }
    assert(users@.take(users@.len() as int) == users@);
    set
}

/// Those in `a` and not in `b`, keeping the order of `a`.
pub fn difference(a: &[User], b: &[User]) -> (r: Vec<User>)
    ensures
        r@ == missing_from(a@, b@),
{
    broadcast use vstd::std_specs::hash::group_hash_axioms;

    let in_b = ids(b);
    let mut r: Vec<User> = Vec::new();
    let mut i: usize = 0;
    assert(r@ == missing_from(a@.take(0), b@)) by {
        reveal(Seq::filter);
    }
    while i < a.len()
        invariant
            i <= a@.len(),
            forall|pk: Pk| #[trigger] lists(b@, pk) <==> in_b@.contains(pk.0),
            r@ == missing_from(a@.take(i as int), b@),
        decreases a@.len() - i,
    {
        broadcast use vstd::std_specs::hash::group_hash_axioms;

        let ghost before = r@;
        if !in_b.contains(&a[i].pk.0) {
            r.push(a[i].clone());
        }
        proof {
            reveal(Seq::filter);
            assert(a@.take(i + 1).drop_last() == a@.take(i as int));
            assert(lists(b@, a@[i as int].pk) <==> in_b@.contains(a@[i as int].pk.0));
        }
        i = i + 1;
    }
    assert(a@.take(a@.len() as int) == a@);
    r
}

/// Those in both, keeping the order of `a`.
pub fn intersection(a: &[User], b: &[User]) -> (r: Vec<User>)
    ensures
        r@ == common_to(a@, b@),
{
    broadcast use vstd::std_specs::hash::group_hash_axioms;

    let in_b = ids(b);
    let mut r: Vec<User> = Vec::new();
    let mut i: usize = 0;
    assert(r@ == common_to(a@.take(0), b@)) by {
        reveal(Seq::filter);
    }
    while i < a.len()
        invariant
            i <= a@.len(),
            forall|pk: Pk| #[trigger] lists(b@, pk) <==> in_b@.contains(pk.0),
            r@ == common_to(a@.take(i as int), b@),
        decreases a@.len() - i,
    {
        broadcast use vstd::std_specs::hash::group_hash_axioms;

        if in_b.contains(&a[i].pk.0) {
            r.push(a[i].clone());
        }
        proof {
            reveal(Seq::filter);
            assert(a@.take(i + 1).drop_last() == a@.take(i as int));
            assert(lists(b@, a@[i as int].pk) <==> in_b@.contains(a@[i as int].pk.0));
        }
        i = i + 1;
    }
    assert(a@.take(a@.len() as int) == a@);
    r
}

/// Every account of a list is missing from another or common to both, and no
/// more than once for each time it is listed.
pub proof fn a_list_splits_in_two(a: Seq<User>, b: Seq<User>)
    ensures
        missing_from(a, b).len() + common_to(a, b).len() == a.len(),
        forall|pk: Pk| #[trigger]
            lists(a, pk) <==> lists(missing_from(a, b), pk) || lists(common_to(a, b), pk),
        forall|pk: Pk| #[trigger] lists(missing_from(a, b), pk) ==> !lists(b, pk),
        forall|pk: Pk| #[trigger] lists(common_to(a, b), pk) ==> lists(b, pk),
    decreases a.len(),
{
    reveal(Seq::filter);
    if a.len() > 0 {
        let rest = a.drop_last();
        let u = a.last();
        a_list_splits_in_two(rest, b);
        assert(a == rest.push(u));
        lemma_lists_push(rest, u);
        if lists(b, u.pk) {
            assert(common_to(a, b) == common_to(rest, b).push(u));
            assert(missing_from(a, b) == missing_from(rest, b));
            lemma_lists_push(common_to(rest, b), u);
        } else {
            assert(missing_from(a, b) == missing_from(rest, b).push(u));
            assert(common_to(a, b) == common_to(rest, b));
            lemma_lists_push(missing_from(rest, b), u);
        }
    } else {
        assert(missing_from(a, b) == a);
        assert(common_to(a, b) == a);
    }
}

proof fn lemma_lists_push(users: Seq<User>, u: User)
    ensures
        forall|pk: Pk| #[trigger] lists(users.push(u), pk) <==> lists(users, pk) || pk == u.pk,
{
    let after = users.push(u);
    assert forall|pk: Pk| #[trigger] lists(after, pk) <==> lists(users, pk) || pk == u.pk by {
        if lists(users, pk) {
            let j = choose|j: int| 0 <= j < users.len() && (#[trigger] users[j]).pk == pk;
            assert(after[j].pk == pk);
        }
        if pk == u.pk {
            assert(after[users.len() as int].pk == pk);
        }
        if lists(after, pk) {
            let j = choose|j: int| 0 <= j < after.len() && (#[trigger] after[j]).pk == pk;
            if j < users.len() {
                assert(users[j].pk == pk);
            }
        }
    }
}

/// Lists are crossed by id: what the accounts of the other list are called
/// makes no difference.
pub proof fn names_make_no_difference(a: Seq<User>, b: Seq<User>, c: Seq<User>)
    requires
        forall|pk: Pk| #[trigger] lists(b, pk) <==> lists(c, pk),
    ensures
        missing_from(a, b) == missing_from(a, c),
        common_to(a, b) == common_to(a, c),
    decreases a.len(),
{
    reveal(Seq::filter);
    if a.len() > 0 {
        names_make_no_difference(a.drop_last(), b, c);
        assert(lists(b, a.last().pk) <==> lists(c, a.last().pk));
    }
}

/// Of one list, those who are missing from another are those whose id it does not have,
/// and those common to both are those whose id it has.
pub proof fn an_account_is_told_by_its_id(a: Seq<User>, b: Seq<User>, i: int)
    requires
        0 <= i < a.len(),
    ensures
        missing_from(a, b).contains(a[i]) <==> forall|j: int|
            0 <= j < b.len() ==> (#[trigger] b[j]).pk != a[i].pk,
        common_to(a, b).contains(a[i]) <==> exists|j: int|
            0 <= j < b.len() && (#[trigger] b[j]).pk == a[i].pk,
{
    let missing = |u: User| !lists(b, u.pk);
    let common = |u: User| lists(b, u.pk);
    let x = lemma_filter_order(a, missing);
    let y = lemma_filter_order(a, common);
    if missing(a[i]) {
        let k = choose|k: int| 0 <= k < x.len() && #[trigger] x[k] == i;
        assert(a.filter(missing)[k] == a[i]);
    } else {
        let k = choose|k: int| 0 <= k < y.len() && #[trigger] y[k] == i;
        assert(a.filter(common)[k] == a[i]);
    }
    if missing_from(a, b).contains(a[i]) {
        let k = choose|k: int| 0 <= k < a.filter(missing).len() && a.filter(missing)[k] == a[i];
        assert(missing(a[x[k]]));
    }
    if common_to(a, b).contains(a[i]) {
        let k = choose|k: int| 0 <= k < a.filter(common).len() && a.filter(common)[k] == a[i];
        assert(common(a[y[k]]));
    }
}

/// What is crossed comes in the order of the first list: of two accounts that are both
/// missing, the one that stands first in the list stands first in the answer.
pub proof fn crossing_keeps_the_order(a: Seq<User>, b: Seq<User>, k: int, l: int) -> (places: (
    int,
    int,
))
    requires
        0 <= k < l < missing_from(a, b).len(),
    ensures
        0 <= places.0 < places.1 < a.len(),
        missing_from(a, b)[k] == a[places.0],
        missing_from(a, b)[l] == a[places.1],
{
    let x = lemma_filter_order(a, |u: User| !lists(b, u.pk));
    (x[k], x[l])
}

} // verus!
