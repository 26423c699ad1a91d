//! Whether rows that were read make a store: what every operation takes for
//! granted and keeps.
use std::collections::{HashMap, HashSet};
use vstd::prelude::*;
use vstd::std_specs::hash::*;
use vstd::string::*;

use crate::store::deliveries::{facts, reports_are_sound};
use crate::store::snapshots::{
    captures_are_sound, has_capture, is_placed, locate_capture, members_are_sound, MemberRow,
};
use crate::store::users::{history_is_sound, names_are_sound};
use crate::store::watch::{cursors_are_sound, marks_are_sound, runs_are_sound, sent_is_sound};
use crate::store::Store;
use crate::text::same_text;

verus! {

/// Whether no two keys are alike.
spec fn keys_differ(keys: Seq<u128>) -> bool {
    forall|i: int, j: int| 0 <= i < j < keys.len() ==> #[trigger] keys[i] != #[trigger] keys[j]
}

fn do_differ(keys: &Vec<u128>) -> (r: bool)
    ensures
        r == keys_differ(keys@),
{
    broadcast use group_hash_axioms;

    let mut seen: HashSet<u128> = HashSet::new();
    let mut i: usize = 0;
    while i < keys.len()
        invariant
            i <= keys@.len(),
            forall|k: u128| #[trigger]
                seen@.contains(k) <==> exists|j: int| 0 <= j < i && #[trigger] keys@[j] == k,
            keys_differ(keys@.take(i as int)),
        decreases keys@.len() - i,
    {
        broadcast use group_hash_axioms;

        let key: u128 = keys[i];
        let ghost before = seen@;
        let fresh: bool = seen.insert(key);
        if !fresh {
            let ghost j = choose|j: int| 0 <= j < i && #[trigger] keys@[j] == key;
            assert(keys@[j] == keys@[i as int]);
            return false;
        }
        proof {
            let (x, y) = (keys@.take(i as int), keys@.take(i + 1));
            assert forall|k: u128| #[trigger]
                seen@.contains(k) <==> exists|j: int| 0 <= j < i + 1 && #[trigger] keys@[j] == k by {
                if before.contains(k) {
                    let j = choose|j: int| 0 <= j < i && #[trigger] keys@[j] == k;
                    assert(0 <= j < i + 1 && keys@[j] == k);
                }
                if k == key {
                    assert(keys@[i as int] == k);
                }
            }
            assert forall|j: int, k: int| 0 <= j < k < y.len() implies #[trigger] y[j]
                != #[trigger] y[k] by {
                if k < i {
                    assert(x[j] != x[k]);
                } else {
                    assert(keys@[j] == y[j]);
                }
            }
        }
        i = i + 1;
    }
    assert(keys@.take(keys@.len() as int) == keys@);
    true
}

/// Two numbers in one.
spec fn paired(a: i64, b: u64) -> u128 {
    ((a + 0x8000_0000_0000_0000) * 0x1_0000_0000_0000_0000 + b) as u128
}

fn pair(a: i64, b: u64) -> (r: u128)
    ensures
        r == paired(a, b),
{
    let high: u128 = (a as i128 + 0x8000_0000_0000_0000) as u128;
    high * 0x1_0000_0000_0000_0000 + b as u128
}

proof fn lemma_paired(a: i64, b: u64, c: i64, d: u64)
    ensures
        paired(a, b) == paired(c, d) <==> a == c && b == d,
{
}

fn names_check(store: &Store) -> (r: bool)
    ensures
        r == names_are_sound(store.users@),
{
    let mut keys: Vec<u128> = Vec::new();
    let mut i: usize = 0;
    while i < store.users.len()
        invariant
            i <= store.users@.len(),
            keys@.len() == i,
            forall|j: int| 0 <= j < i ==> #[trigger] keys@[j] == store.users@[j].user.pk.0,
        decreases store.users@.len() - i,
    {
        keys.push(store.users[i].user.pk.0 as u128);
        i = i + 1;
    }
    let r = do_differ(&keys);
    proof {
        if names_are_sound(store.users@) {
            assert forall|i: int, j: int| 0 <= i < j < keys@.len() implies #[trigger] keys@[i]
                != #[trigger] keys@[j] by {
                assert(store.users@[i].user.pk != store.users@[j].user.pk);
            }
        }
        if keys_differ(keys@) {
            assert forall|i: int, j: int| 0 <= i < j < store.users@.len() implies (
            #[trigger] store.users@[i]).user.pk != (#[trigger] store.users@[j]).user.pk by {
                assert(keys@[i] != keys@[j]);
            }
        }
    }
    r
}

fn history_check(store: &Store) -> (r: bool)
    ensures
        r == history_is_sound(store.history@),
{
    let mut last: i64 = 0;
    let mut i: usize = 0;
    while i < store.history.len()
        invariant
            i <= store.history@.len(),
            if i == 0 {
                last == 0
            } else {
                last == store.history@[i - 1].id
            },
            forall|j: int| 0 <= j < i ==> 1 <= (#[trigger] store.history@[j]).id <= last,
            forall|j: int, k: int|
                0 <= j < k < i ==> (#[trigger] store.history@[j]).id < (
                #[trigger] store.history@[k]).id,
        decreases store.history@.len() - i,
    {
        let id: i64 = store.history[i].id;
        if id <= last {
            assert(i > 0 ==> store.history@[i - 1].id >= store.history@[i as int].id);
            return false;
        }
        last = id;
        i = i + 1;
    }
    true
}

fn captures_check(store: &Store) -> (r: bool)
    ensures
        r == captures_are_sound(store.snapshots@),
{
    let mut last: i64 = 0;
    let mut i: usize = 0;
    while i < store.snapshots.len()
        invariant
            i <= store.snapshots@.len(),
            if i == 0 {
                last == 0
            } else {
                last == store.snapshots@[i - 1].id
            },
            forall|j: int| 0 <= j < i ==> 1 <= (#[trigger] store.snapshots@[j]).id <= last,
            forall|j: int, k: int|
                0 <= j < k < i ==> (#[trigger] store.snapshots@[j]).id < (
                #[trigger] store.snapshots@[k]).id,
        decreases store.snapshots@.len() - i,
    {
        let id: i64 = store.snapshots[i].id;
        if id <= last {
            assert(i > 0 ==> store.snapshots@[i - 1].id >= store.snapshots@[i as int].id);
            return false;
        }
        last = id;
        i = i + 1;
    }
    true
}

fn runs_check(store: &Store) -> (r: bool)
    ensures
        r == runs_are_sound(store.runs@),
{
    let mut last: i64 = 0;
    let mut i: usize = 0;
    while i < store.runs.len()
        invariant
            i <= store.runs@.len(),
            if i == 0 {
                last == 0
            } else {
                last == store.runs@[i - 1].id
            },
            forall|j: int| 0 <= j < i ==> 1 <= (#[trigger] store.runs@[j]).id <= last,
            forall|j: int, k: int|
                0 <= j < k < i ==> (#[trigger] store.runs@[j]).id < (
                #[trigger] store.runs@[k]).id,
        decreases store.runs@.len() - i,
    {
        let id: i64 = store.runs[i].id;
        if id <= last {
            assert(i > 0 ==> store.runs@[i - 1].id >= store.runs@[i as int].id);
            return false;
        }
        last = id;
        i = i + 1;
    }
    true
}

fn reports_check(store: &Store) -> (r: bool)
    ensures
        r == reports_are_sound(facts(store.deliveries@)),
{
    let ghost rows = facts(store.deliveries@);
    let mut i: usize = 0;
    while i < store.deliveries.len()
        invariant
            rows == facts(store.deliveries@),
            i <= store.deliveries@.len(),
            reports_are_sound(rows.take(i as int)),
        decreases store.deliveries@.len() - i,
    {
        let row = &store.deliveries[i];
        assert(rows[i as int] == row@);
        if row.id < 1 {
            return false;
        }
        let mut j: usize = 0;
        while j < i
            invariant
                rows == facts(store.deliveries@),
                j <= i < store.deliveries@.len(),
                row@ == rows[i as int],
                forall|k: int|
                    0 <= k < j ==> (#[trigger] rows[k]).id < row.id && rows[k].run_id
                        != row.run_id@,
            decreases i - j,
        {
            let other = &store.deliveries[j];
            assert(rows[j as int] == other@);
            if other.id >= row.id || same_text(other.run_id.as_str(), row.run_id.as_str()) {
                return false;
            }
            j = j + 1;
        }
        proof {
            let (x, y) = (rows.take(i as int), rows.take(i + 1));
            assert forall|k: int| 0 <= k < y.len() implies (#[trigger] y[k]).id >= 1 by {
                if k < i {
                    assert(x[k].id >= 1);
                }
            }
            assert forall|k: int, l: int|
                #![trigger y[k], y[l]]
                0 <= k < l < y.len() implies y[k].id < y[l].id && y[k].run_id != y[l].run_id by {
                if l < i {
                    assert(x[k].id < x[l].id && x[k].run_id != x[l].run_id);
                } else {
                    assert(rows[k].id < row.id);
                }
            }
        }
        i = i + 1;
    }
    assert(rows.take(rows.len() as int) == rows);
    true
}

/// Whether everybody in a capture is in one that is there.
fn places_check(store: &Store) -> (r: bool)
    requires
        captures_are_sound(store.snapshots@),
    ensures
        r == (forall|i: int|
            0 <= i < store.members@.len() ==> is_placed(
                #[trigger] store.members@[i],
                store.snapshots@,
            )),
{
    let mut i: usize = 0;
    while i < store.members.len()
        invariant
            captures_are_sound(store.snapshots@),
            i <= store.members@.len(),
            forall|j: int|
                0 <= j < i ==> is_placed(#[trigger] store.members@[j], store.snapshots@),
        decreases store.members@.len() - i,
    {
        let member = &store.members[i];
        match locate_capture(&store.snapshots, member.snapshot_id) {
            Some(at) => {
                if member.ordinal >= store.snapshots[at].member_count {
                    assert(!is_placed(store.members@[i as int], store.snapshots@)) by {
                        assert forall|k: int|
                            0 <= k < store.snapshots@.len() && (#[trigger] store.snapshots@[k]).id
                                == member.snapshot_id implies k == at by {
                            let a = store.snapshots@[at as int];
                            assert(a.id == member.snapshot_id);
                        }
                    }
                    return false;
                }
                assert(store.snapshots@[at as int].id == member.snapshot_id);
                assert(is_placed(store.members@[i as int], store.snapshots@));
            },
            None => {
                assert(!is_placed(store.members@[i as int], store.snapshots@));
                return false;
            },
        }
        i = i + 1;
    }
    true
}

/// Whether those of one capture stand in the order they were served.
spec fn in_order(members: Seq<MemberRow>) -> bool {
    forall|i: int, j: int|
        #![trigger members[i], members[j]]
        0 <= i < j < members.len() && members[i].snapshot_id == members[j].snapshot_id
            ==> members[i].ordinal < members[j].ordinal
}

fn order_check(members: &Vec<MemberRow>) -> (r: bool)
    ensures
        r == in_order(members@),
{
    broadcast use group_hash_axioms;

    let mut last: HashMap<i64, u64> = HashMap::new();
    let mut i: usize = 0;
    while i < members.len()
        invariant
            i <= members@.len(),
            in_order(members@.take(i as int)),
            forall|j: int|
                0 <= j < i ==> last@.contains_key((#[trigger] members@[j]).snapshot_id)
                    && members@[j].ordinal <= last@[members@[j].snapshot_id],
            forall|id: i64| #[trigger]
                last@.contains_key(id) ==> exists|j: int|
                    0 <= j < i && (#[trigger] members@[j]).snapshot_id == id && members@[j].ordinal
                        == last@[id],
        decreases members@.len() - i,
    {
        broadcast use group_hash_axioms;

        let (id, ordinal): (i64, u64) = (members[i].snapshot_id, members[i].ordinal);
        let ghost known = last@;
        let before: Option<u64> = last.insert(id, ordinal);
        if let Some(previous) = before {
            if previous >= ordinal {
                let ghost j = choose|j: int|
                    0 <= j < i && (#[trigger] members@[j]).snapshot_id == id && members@[j].ordinal
                        == known[id];
                assert(members@[j].ordinal >= members@[i as int].ordinal);
                return false;
            }
        }
        proof {
            let (x, y) = (members@.take(i as int), members@.take(i + 1));
            assert forall|j: int, k: int|
                #![trigger y[j], y[k]]
                0 <= j < k < y.len() && y[j].snapshot_id == y[k].snapshot_id implies y[j].ordinal
                < y[k].ordinal by {
                if k < i {
                    assert(x[j].snapshot_id == x[k].snapshot_id);
                } else {
                    assert(members@[j].ordinal <= known[id]);
                }
            }
            assert forall|other: i64| #[trigger] last@.contains_key(other) implies exists|j: int|
                0 <= j < i + 1 && (#[trigger] members@[j]).snapshot_id == other
                    && members@[j].ordinal == last@[other] by {
                if other == id {
                    assert(members@[i as int].snapshot_id == other);
                } else {
                    assert(known.contains_key(other));
                    let j = choose|j: int|
                        0 <= j < i && (#[trigger] members@[j]).snapshot_id == other
                            && members@[j].ordinal == known[other];
                    assert(members@[j].snapshot_id == other);
                }
            }
        }
        i = i + 1;
    }
    assert(members@.take(members@.len() as int) == members@);
    true
}

/// Whether nobody is in one capture twice.
spec fn nobody_twice(members: Seq<MemberRow>) -> bool {
    forall|i: int, j: int|
        #![trigger members[i], members[j]]
        0 <= i < j < members.len() && members[i].snapshot_id == members[j].snapshot_id
            ==> members[i].user_pk != members[j].user_pk
}

fn repeats_check(members: &Vec<MemberRow>) -> (r: bool)
    ensures
        r == nobody_twice(members@),
{
    let mut keys: Vec<u128> = Vec::new();
    let mut i: usize = 0;
    while i < members.len()
        invariant
            i <= members@.len(),
            keys@.len() == i,
            forall|j: int|
                0 <= j < i ==> #[trigger] keys@[j] == paired(
                    members@[j].snapshot_id,
                    members@[j].user_pk.0,
                ),
        decreases members@.len() - i,
    {
        keys.push(pair(members[i].snapshot_id, members[i].user_pk.0));
        i = i + 1;
    }
    let r = do_differ(&keys);
    proof {
        if r {
            assert forall|i: int, j: int|
                #![trigger members@[i], members@[j]]
                0 <= i < j < members@.len() && members@[i].snapshot_id
                    == members@[j].snapshot_id implies members@[i].user_pk
                != members@[j].user_pk by {
                assert(keys@[i] != keys@[j]);
            }
        } else if nobody_twice(members@) {
            assert forall|i: int, j: int| 0 <= i < j < keys@.len() implies #[trigger] keys@[i]
                != #[trigger] keys@[j] by {
                let (a, b) = (members@[i], members@[j]);
                lemma_paired(a.snapshot_id, a.user_pk.0, b.snapshot_id, b.user_pk.0);
            }
        }
    }
    r
}

fn marks_check(store: &Store) -> (r: bool)
    ensures
        r == marks_are_sound(store.marks@, store.snapshots@),
{
    let mut i: usize = 0;
    while i < store.marks.len()
        invariant
            i <= store.marks@.len(),
            marks_are_sound(store.marks@.take(i as int), store.snapshots@),
        decreases store.marks@.len() - i,
    {
        let mark = store.marks[i];
        if let Some(id) = mark.snapshot_id {
            match locate_capture(&store.snapshots, id) {
                Some(at) => {
                    assert(store.snapshots@[at as int].id == id);
                },
                None => {
                    assert(store.marks@[i as int].snapshot_id == Some(id));
                    return false;
                },
            }
        }
        let mut j: usize = 0;
        while j < i
            invariant
                j <= i < store.marks@.len(),
                mark == store.marks@[i as int],
                forall|k: int|
                    0 <= k < j ==> !((#[trigger] store.marks@[k]).account_pk == mark.account_pk
                        && store.marks@[k].kind == mark.kind),
            decreases i - j,
        {
            let other = store.marks[j];
            if other.account_pk == mark.account_pk && other.kind == mark.kind {
                assert(store.marks@[j as int] == other);
                return false;
            }
            j = j + 1;
        }
        proof {
            let (x, y) = (store.marks@.take(i as int), store.marks@.take(i + 1));
            assert forall|k: int, l: int|
                #![trigger y[k], y[l]]
                0 <= k < l < y.len() implies !(y[k].account_pk == y[l].account_pk && y[k].kind
                == y[l].kind) by {
                if l < i {
                    assert(!(x[k].account_pk == x[l].account_pk && x[k].kind == x[l].kind));
                } else {
                    assert(store.marks@[k] == y[k]);
                }
            }
            assert forall|k: int| 0 <= k < y.len() implies ((#[trigger] y[k]).snapshot_id matches Some(
                id,
            ) ==> has_capture(store.snapshots@, id)) by {
                if k < i {
                    assert(x[k] == y[k]);
                }
            }
        }
        i = i + 1;
    }
    assert(store.marks@.take(store.marks@.len() as int) == store.marks@);
    true
}

fn cursors_check(store: &Store) -> (r: bool)
    ensures
        r == cursors_are_sound(store.cursors@),
{
    let mut keys: Vec<u128> = Vec::new();
    let mut i: usize = 0;
    while i < store.cursors.len()
        invariant
            i <= store.cursors@.len(),
            keys@.len() == i,
            forall|j: int| 0 <= j < i ==> #[trigger] keys@[j] == store.cursors@[j].account_pk.0,
        decreases store.cursors@.len() - i,
    {
        keys.push(store.cursors[i].account_pk.0 as u128);
        i = i + 1;
    }
    let r = do_differ(&keys);
    proof {
        if r {
            assert forall|i: int, j: int| 0 <= i < j < store.cursors@.len() implies (
            #[trigger] store.cursors@[i]).account_pk != (
            #[trigger] store.cursors@[j]).account_pk by {
                assert(keys@[i] != keys@[j]);
            }
        } else if cursors_are_sound(store.cursors@) {
            assert forall|i: int, j: int| 0 <= i < j < keys@.len() implies #[trigger] keys@[i]
                != #[trigger] keys@[j] by {
                assert(store.cursors@[i].account_pk != store.cursors@[j].account_pk);
            }
        }
    }
    r
}

fn sent_check(store: &Store) -> (r: bool)
    ensures
        r == sent_is_sound(store.sent@),
{
    let mut keys: Vec<u128> = Vec::new();
    let mut i: usize = 0;
    while i < store.sent.len()
        invariant
            i <= store.sent@.len(),
            keys@.len() == i,
            forall|j: int|
                0 <= j < i ==> #[trigger] keys@[j] == paired(
                    store.sent@[j].history_id,
                    store.sent@[j].account_pk.0,
                ),
        decreases store.sent@.len() - i,
    {
        keys.push(pair(store.sent[i].history_id, store.sent[i].account_pk.0));
        i = i + 1;
    }
    let r = do_differ(&keys);
    proof {
        if r {
            assert forall|i: int, j: int|
                #![trigger store.sent@[i], store.sent@[j]]
                0 <= i < j < store.sent@.len() implies !(store.sent@[i].account_pk
                == store.sent@[j].account_pk && store.sent@[i].history_id
                == store.sent@[j].history_id) by {
                assert(keys@[i] != keys@[j]);
            }
        } else if sent_is_sound(store.sent@) {
            assert forall|i: int, j: int| 0 <= i < j < keys@.len() implies #[trigger] keys@[i]
                != #[trigger] keys@[j] by {
                let (a, b) = (store.sent@[i], store.sent@[j]);
                lemma_paired(a.history_id, a.account_pk.0, b.history_id, b.account_pk.0);
            }
        }
    }
    r
}

impl Store {
    /// Whether the rows make a store: no two for one thing, ids that grow as rows
    /// are filed, and no row that refers to one that is not there. What is read
    /// from outside is asked this before anything is done with it.
    pub fn is_consistent(&self) -> (r: bool)
        ensures
            r == self.is_sound(),
    {
        if !names_check(self) || !history_check(self) || !captures_check(self) || !reports_check(
            self,
        ) || !runs_check(self) || !cursors_check(self) || !sent_check(self) || !marks_check(self) {
            return false;
        }
        let r = places_check(self) && order_check(&self.members) && repeats_check(&self.members);
        proof {
            let members = self.members@;
            if r {
                assert forall|i: int, j: int|
                    #![trigger members[i], members[j]]
                    0 <= i < j < members.len() && members[i].snapshot_id
                        == members[j].snapshot_id implies members[i].ordinal < members[j].ordinal
                    && members[i].user_pk != members[j].user_pk by {}
            } else if members_are_sound(members, self.snapshots@) {
                assert(in_order(members));
                assert(nobody_twice(members));
            }
        }
        r
    }
}

} // verus!
