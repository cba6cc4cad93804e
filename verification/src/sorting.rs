//! Putting a list in the order of its keys.

use crate::math::Vector3i;
use crate::position_map;
use vstd::prelude::*;
use vstd::seq_lib::{to_multiset_build, to_multiset_insert, to_multiset_len};

verus! {

/// Has a key that it is ordered by.
pub trait Keyed {
    spec fn key(&self) -> int;

    fn sort_key(&self) -> (k: u128)
        ensures
            k == self.key(),
    ;
}

/// Keys do not decrease.
pub open spec fn in_order<T: Keyed>(s: Seq<T>) -> bool {
    forall|i: int, j: int|
        0 <= i <= j < s.len() ==> (#[trigger] s[i]).key() <= (#[trigger] s[j]).key()
}

/// Keys do not increase.
spec fn in_reverse_order<T: Keyed>(s: Seq<T>) -> bool {
    forall|i: int, j: int|
        0 <= i <= j < s.len() ==> (#[trigger] s[i]).key() >= (#[trigger] s[j]).key()
}

/// The same items in the order of their keys.
pub fn sort_by_key<T: Keyed>(items: Vec<T>) -> (sorted: Vec<T>)
    ensures
        in_order(sorted@),
        sorted@.to_multiset() == items@.to_multiset(),
        sorted@.len() == items@.len(),
{
    let ghost all = items@.to_multiset();
    let mut rest = items;
    let mut reversed: Vec<T> = Vec::new();
    proof {
        assert(reversed@ =~= Seq::empty());
        assert(reversed@.to_multiset() =~= vstd::multiset::Multiset::empty()) by {
            to_multiset_len(reversed@);
            assert forall|x: T| reversed@.to_multiset().count(x) == 0 by {
                vstd::seq_lib::to_multiset_contains(reversed@, x);
            }
        }
        assert(reversed@.to_multiset().add(rest@.to_multiset()) =~= all);
    }
    while rest.len() > 0
        invariant
            in_reverse_order(reversed@),
            reversed@.to_multiset().add(rest@.to_multiset()) == all,
        decreases rest@.len(),
    {
        let ghost before = rest@;
        let ghost sorted_before = reversed@;
        match rest.pop() {
            Some(item) => {
                let key: u128 = item.sort_key();
                let mut at: usize = reversed.len();
                while at > 0 && reversed[at - 1].sort_key() < key
                    invariant
                        at <= reversed@.len(),
                        reversed@ == sorted_before,
                        in_reverse_order(reversed@),
                        key == item.key(),
                        forall|k: int| at <= k < reversed@.len() ==> (#[trigger] reversed@[k]).key() < key,
                    decreases at,
                {
                    at = at - 1;
                }
                proof {
                    assert(before =~= rest@.push(item));
                    to_multiset_build(rest@, item);
                    to_multiset_insert(reversed@, at as int, item);
                }
                reversed.insert(at, item);
                proof {
                    assert(reversed@.to_multiset().add(rest@.to_multiset())
                        =~= sorted_before.to_multiset().add(before.to_multiset()));
                    assert(in_reverse_order(reversed@)) by {
                        assert forall|i: int, j: int|
                            0 <= i <= j < reversed@.len() implies (#[trigger] reversed@[i]).key()
                            >= (#[trigger] reversed@[j]).key() by {
                            let a = if i < at {
                                i
                            } else {
                                i - 1
                            };
                            let b = if j < at {
                                j
                            } else {
                                j - 1
                            };
                            if i != at {
                                assert(reversed@[i] == sorted_before[a]);
                            }
                            if j != at {
                                assert(reversed@[j] == sorted_before[b]);
                            }
                            if i < at && j == at {
                                assert(sorted_before[a].key() >= sorted_before[at - 1].key());
                            }
                        }
                    }
                }
            },
            None => {},
        }
    }
    let ghost backwards = reversed@;
    let mut sorted: Vec<T> = Vec::new();
    let ghost n = reversed@.len() as int;
    while reversed.len() > 0
        invariant
            reversed@ == backwards.take(reversed@.len() as int),
            reversed@.len() <= n,
            n == backwards.len(),
            sorted@.len() == n - reversed@.len(),
            forall|k: int| 0 <= k < sorted@.len() ==> sorted@[k] == backwards[n - 1 - k],
        decreases reversed@.len(),
    {
        let ghost len = reversed@.len();
        match reversed.pop() {
            Some(item) => {
                assert(item == backwards[len - 1]);
                assert(reversed@ =~= backwards.take(reversed@.len() as int));
                sorted.push(item);
            },
            None => {},
        }
    }
    proof {
        assert(sorted@ =~= backwards.reverse());
        backwards.lemma_reverse_to_multiset();
        assert(rest@ =~= Seq::empty());
        assert(rest@.to_multiset() =~= vstd::multiset::Multiset::empty()) by {
            assert forall|x: T| rest@.to_multiset().count(x) == 0 by {
                vstd::seq_lib::to_multiset_contains(rest@, x);
            }
        }
        assert(sorted@.to_multiset() =~= all);
        to_multiset_len(sorted@);
        to_multiset_len(items@);
        assert forall|i: int, j: int| 0 <= i <= j < sorted@.len() implies (
        #[trigger] sorted@[i]).key() <= (#[trigger] sorted@[j]).key() by {
            assert(sorted@[i] == backwards[n - 1 - i]);
            assert(sorted@[j] == backwards[n - 1 - j]);
        }
    }
    sorted
}

/// Keys increase.
pub open spec fn increasing<T: Keyed>(s: Seq<T>) -> bool {
    forall|i: int, j: int|
        0 <= i < j < s.len() ==> (#[trigger] s[i]).key() < (#[trigger] s[j]).key()
}

/// Lists with increasing keys and the same members are equal.
pub proof fn lemma_increasing_unique<T: Keyed>(a: Seq<T>, b: Seq<T>)
    requires
        increasing(a),
        increasing(b),
        forall|x: T| #[trigger] a.contains(x) == b.contains(x),
    ensures
        a == b,
    decreases a.len(),
{
    if a.len() == 0 {
        if b.len() > 0 {
            assert(b.contains(b[0]));
            assert(a.contains(b[0]));
        }
        assert(a =~= b);
    } else {
        assert(a.contains(a.last()));
        assert(b.contains(a.last()));
        let k = choose|k: int| 0 <= k < b.len() && b[k] == a.last();
        assert(b.contains(b.last()));
        assert(a.contains(b.last()));
        let j = choose|j: int| 0 <= j < a.len() && a[j] == b.last();
        assert(k == b.len() - 1);
        let (x, y) = (a.drop_last(), b.drop_last());
        assert forall|t: T| #[trigger] x.contains(t) == y.contains(t) by {
            if x.contains(t) {
                let i = choose|i: int| 0 <= i < x.len() && x[i] == t;
                assert(a[i] == t);
                assert(a.contains(t));
                let m = choose|m: int| 0 <= m < b.len() && b[m] == t;
                assert(a[i].key() < a.last().key());
                assert(y[m] == t);
            }
            if y.contains(t) {
                let i = choose|i: int| 0 <= i < y.len() && y[i] == t;
                assert(b[i] == t);
                assert(b.contains(t));
                assert(a.contains(t));
                let m = choose|m: int| 0 <= m < a.len() && a[m] == t;
                assert(b[i].key() < b.last().key());
                assert(x[m] == t);
            }
        }
        lemma_increasing_unique(x, y);
        assert(a =~= x.push(a.last()));
        assert(b =~= y.push(b.last()));
    }
}

/// A list with increasing keys is the only one in order with its items.
pub proof fn lemma_sorted_unique<T: Keyed>(a: Seq<T>, b: Seq<T>)
    requires
        increasing(a),
        in_order(b),
        b.to_multiset() == a.to_multiset(),
    ensures
        b == a,
{
    lemma_same_members(b, a);
    assert(a.no_duplicates()) by {
        assert forall|i: int, j: int| 0 <= i < a.len() && 0 <= j < a.len() && i != j implies a[i]
            != a[j] by {
            if i < j {
                assert(a[i].key() < a[j].key());
            } else {
                assert(a[j].key() < a[i].key());
            }
        }
    }
    assert forall|i: int, j: int| 0 <= i < j < b.len() implies (#[trigger] b[i]).key() < (
    #[trigger] b[j]).key() by {
        assert(b[i].key() <= b[j].key());
        assert(a.contains(b[i]) && a.contains(b[j]));
        let m = choose|m: int| 0 <= m < a.len() && a[m] == b[i];
        let n = choose|n: int| 0 <= n < a.len() && a[n] == b[j];
        assert(b[i] != b[j]);
        if m < n {
            assert(a[m].key() < a[n].key());
        } else {
            assert(a[n].key() < a[m].key());
        }
    }
    lemma_increasing_unique(a, b);
}

/// Lists with the same items have the same members.
pub proof fn lemma_same_members<T>(a: Seq<T>, b: Seq<T>)
    requires
        a.to_multiset() == b.to_multiset(),
    ensures
        a.len() == b.len(),
        forall|x: T| #[trigger] a.contains(x) == b.contains(x),
        forall|k: int| 0 <= k < a.len() ==> b.contains(#[trigger] a[k]),
        a.no_duplicates() == b.no_duplicates(),
{
    to_multiset_len(a);
    to_multiset_len(b);
    assert forall|x: T| #[trigger] a.contains(x) == b.contains(x) by {
        vstd::seq_lib::to_multiset_contains(a, x);
        vstd::seq_lib::to_multiset_contains(b, x);
    }
    assert forall|k: int| 0 <= k < a.len() implies b.contains(#[trigger] a[k]) by {
        assert(a.contains(a[k]));
    }
    if a.no_duplicates() {
        a.lemma_multiset_has_no_duplicates();
        b.lemma_multiset_has_no_duplicates_conv();
    }
    if b.no_duplicates() {
        b.lemma_multiset_has_no_duplicates();
        a.lemma_multiset_has_no_duplicates_conv();
    }
}

/// Positions are ordered by Z, then X, then Y.
pub open spec fn zxy_key(p: Vector3i) -> int {
    (p.z + 0x8000_0000) * 0x1_0000_0000_0000_0000 + (p.x + 0x8000_0000) * 0x1_0000_0000 + (p.y
        + 0x8000_0000)
}

impl Keyed for Vector3i {
    open spec fn key(&self) -> int {
        zxy_key(*self)
    }

    fn sort_key(&self) -> (k: u128) {
        let x: u128 = (self.x as i64 + 0x8000_0000) as u128;
        let y: u128 = (self.y as i64 + 0x8000_0000) as u128;
        let z: u128 = (self.z as i64 + 0x8000_0000) as u128;
        z * 0x1_0000_0000_0000_0000 + x * 0x1_0000_0000 + y
    }
}

/// The order of the keys is the ZXY order, and no two positions share a key.
pub proof fn lemma_zxy_key(p: Vector3i, q: Vector3i)
    ensures
        zxy_key(p) < zxy_key(q) <==> p@.before(q@),
        zxy_key(p) == zxy_key(q) <==> p == q,
{
    let a = Vector3i { x: p.z, y: p.x, z: p.y };
    let b = Vector3i { x: q.z, y: q.x, z: q.y };
    assert(zxy_key(p) == position_map::packed(a) && zxy_key(q) == position_map::packed(b));
    position_map::lemma_packed_order(a, b);
}

/// `s` lists the members of `set`, each once, in ZXY order.
pub open spec fn lists(s: Seq<Vector3i>, set: Set<Vector3i>) -> bool {
    &&& s.to_set() == set
    &&& forall|i: int, j: int|
        0 <= i < j < s.len() ==> (#[trigger] s[i])@.before((#[trigger] s[j])@)
}

/// There is only one list of the members of a set in ZXY order.
pub proof fn lemma_lists_unique(a: Seq<Vector3i>, b: Seq<Vector3i>, set: Set<Vector3i>)
    requires
        lists(a, set),
        lists(b, set),
    ensures
        a == b,
    decreases a.len(),
{
    if a.len() == 0 {
        if b.len() > 0 {
            assert(b.to_set().contains(b[0])) by {
                assert(b.contains(b[0]));
            }
            assert(a.contains(b[0]));
        }
        assert(a =~= b);
    } else {
        let x = a.last();
        assert(a[a.len() - 1] == x);
        assert(a.contains(x));
        assert(a.to_set().contains(x));
        assert(b.contains(x));
        let y = b.last();
        assert(b[b.len() - 1] == y);
        assert(b.contains(y));
        assert(b.to_set().contains(y));
        assert(a.contains(y));
        let i = choose|i: int| 0 <= i < a.len() && a[i] == y;
        let j = choose|j: int| 0 <= j < b.len() && b[j] == x;
        lemma_zxy_key(x, y);
        lemma_zxy_key(y, x);
        assert(x == y) by {
            if i < a.len() - 1 {
                assert(a[i]@.before(a[a.len() - 1]@));
            }
            if j < b.len() - 1 {
                assert(b[j]@.before(b[b.len() - 1]@));
            }
        }
        let front = set.remove(x);
        lemma_lists_front(a, set);
        lemma_lists_front(b, set);
        lemma_lists_unique(a.drop_last(), b.drop_last(), front);
        assert(a =~= a.drop_last().push(x));
        assert(b =~= b.drop_last().push(x));
    }
}

proof fn lemma_lists_front(a: Seq<Vector3i>, set: Set<Vector3i>)
    requires
        lists(a, set),
        a.len() > 0,
    ensures
        lists(a.drop_last(), set.remove(a.last())),
{
    let front = a.drop_last();
    let x = a.last();
    assert(a[a.len() - 1] == x);
    assert forall|p: Vector3i| front.to_set().contains(p) == set.remove(x).contains(p) by {
        if front.contains(p) {
            let k = choose|k: int| 0 <= k < front.len() && front[k] == p;
            assert(a[k] == p);
            assert(a.contains(p));
            assert(a[k]@.before(a[a.len() - 1]@));
            lemma_zxy_key(p, x);
        }
        if a.contains(p) && p != x {
            let k = choose|k: int| 0 <= k < a.len() && a[k] == p;
            assert(front[k] == p);
        }
        assert(a.to_set().contains(p) == a.contains(p));
    }
    assert(front.to_set() =~= set.remove(x));
    assert forall|i: int, j: int| 0 <= i < j < front.len() implies (
    #[trigger] front[i])@.before((#[trigger] front[j])@) by {
        assert(front[i] == a[i]);
        assert(front[j] == a[j]);
    }
}

/// What is left of a list in ZXY order is in ZXY order.
pub proof fn lemma_filter_lists(s: Seq<Vector3i>, f: spec_fn(Vector3i) -> bool)
    requires
        forall|i: int, j: int|
            0 <= i < j < s.len() ==> (#[trigger] s[i])@.before((#[trigger] s[j])@),
    ensures
        lists(s.filter(f), Set::new(|p: Vector3i| s.contains(p) && f(p))),
    decreases s.len(),
{
    let kept = s.filter(f);
    crate::collections::lemma_filter_facts(s, f);
    assert forall|p: Vector3i| kept.to_set().contains(p) == (s.contains(p) && f(p)) by {
        assert(kept.to_set().contains(p) == kept.contains(p));
    }
    assert(kept.to_set() =~= Set::new(|p: Vector3i| s.contains(p) && f(p)));
    reveal(Seq::filter);
    if s.len() > 0 {
        let front = s.drop_last();
        let x = s.last();
        assert(s[s.len() - 1] == x);
        assert forall|i: int, j: int| 0 <= i < j < front.len() implies (
        #[trigger] front[i])@.before((#[trigger] front[j])@) by {
            assert(front[i] == s[i] && front[j] == s[j]);
        }
        lemma_filter_lists(front, f);
        if f(x) {
            assert forall|i: int, j: int| 0 <= i < j < kept.len() implies (
            #[trigger] kept[i])@.before((#[trigger] kept[j])@) by {
                let shorter = front.filter(f);
                assert(kept == shorter.push(x));
                if j == kept.len() - 1 {
                    assert(shorter.contains(shorter[i]));
                    crate::collections::lemma_filter_facts(front, f);
                    assert(front.contains(shorter[i]));
                    let k = choose|k: int| 0 <= k < front.len() && front[k] == shorter[i];
                    assert(s[k] == shorter[i]);
                    assert(s[k]@.before(s[s.len() - 1]@));
                } else {
                    assert(kept[i] == shorter[i] && kept[j] == shorter[j]);
                }
            }
        }
    }
}

/// The members of a set, in whatever order, come once each.
proof fn lemma_members_once(set: Set<Vector3i>)
    requires
        set.finite(),
    ensures
        set.to_seq().no_duplicates(),
        set.to_seq().to_set() == set,
    decreases set.len(),
{
    set.lemma_to_seq_to_set_id();
    if set.len() > 0 {
        let x = set.choose();
        let rest = set.remove(x);
        lemma_members_once(rest);
        let all = set.to_seq();
        assert(all == Seq::<Vector3i>::empty().push(x) + rest.to_seq());
        assert forall|i: int, j: int|
            0 <= i < all.len() && 0 <= j < all.len() && i != j implies all[i] != all[j] by {
            assert forall|k: int| 0 <= k < rest.to_seq().len() implies #[trigger] rest.to_seq()[k]
                != x by {
                assert(rest.to_seq().to_set().contains(rest.to_seq()[k]));
            }
            if i > 0 && j > 0 {
                assert(all[i] == rest.to_seq()[i - 1]);
                assert(all[j] == rest.to_seq()[j - 1]);
            } else if i > 0 {
                assert(all[i] == rest.to_seq()[i - 1]);
            } else {
                assert(all[j] == rest.to_seq()[j - 1]);
            }
        }
    }
}

/// Every set of positions can be listed in ZXY order.
pub proof fn lemma_set_is_listed(set: Set<Vector3i>)
    ensures
        lists(listing(set), set),
        forall|p: Vector3i| #[trigger] listing(set).contains(p) <==> set.contains(p),
{
    position_map::lemma_positions_finite(set);
    lemma_members_once(set);
    let all = set.to_seq();
    let leq = |a: Vector3i, b: Vector3i| zxy_key(a) <= zxy_key(b);
    assert(vstd::relations::total_ordering(leq)) by {
        assert forall|a: Vector3i, b: Vector3i| #[trigger] leq(a, b) && #[trigger] leq(b, a) implies a
            == b by {
            lemma_zxy_key(a, b);
        }
    }
    all.lemma_sort_by_ensures(leq);
    let sorted = all.sort_by(leq);
    lemma_same_members(sorted, all);
    assert forall|p: Vector3i| sorted.to_set().contains(p) == set.contains(p) by {
        assert(sorted.to_set().contains(p) == sorted.contains(p));
        assert(all.to_set().contains(p) == all.contains(p));
    }
    assert(sorted.to_set() =~= set);
    assert forall|i: int, j: int| 0 <= i < j < sorted.len() implies (
    #[trigger] sorted[i])@.before((#[trigger] sorted[j])@) by {
        assert(leq(sorted[i], sorted[j]));
        lemma_zxy_key(sorted[i], sorted[j]);
    }
    lemma_listing(sorted, set);
}

/// Sorts positions that are all different.
pub fn sort_positions(positions: Vec<Vector3i>) -> (sorted: Vec<Vector3i>)
    requires
        positions@.no_duplicates(),
    ensures
        lists(sorted@, positions@.to_set()),
        sorted@.no_duplicates(),
        sorted@.len() == positions@.len(),
{
    let sorted = sort_by_key(positions);
    proof {
        lemma_same_members(sorted@, positions@);
        assert forall|p: Vector3i| sorted@.to_set().contains(p) == positions@.to_set().contains(
            p,
        ) by {
            assert(sorted@.contains(p) == positions@.contains(p));
        }
        assert(sorted@.to_set() =~= positions@.to_set());
        assert forall|i: int, j: int| 0 <= i < j < sorted@.len() implies (
        #[trigger] sorted@[i])@.before((#[trigger] sorted@[j])@) by {
            assert(sorted@[i].key() <= sorted@[j].key());
            lemma_zxy_key(sorted@[i], sorted@[j]);
        }
    }
    sorted
}

/// The members of a set in ZXY order.
pub open spec fn listing(set: Set<Vector3i>) -> Seq<Vector3i> {
    choose|s: Seq<Vector3i>| lists(s, set)
}

/// A list of the members of a set in ZXY order is the list.
pub proof fn lemma_listing(s: Seq<Vector3i>, set: Set<Vector3i>)
    requires
        lists(s, set),
    ensures
        listing(set) == s,
        s.no_duplicates(),
        forall|p: Vector3i| #[trigger] s.contains(p) <==> set.contains(p),
{
    lemma_lists_unique(s, listing(set), set);
    assert forall|i: int, j: int| 0 <= i < s.len() && 0 <= j < s.len() && i != j implies s[i]
        != s[j] by {
        if i < j {
            assert(s[i]@.before(s[j]@));
            lemma_zxy_key(s[i], s[j]);
        } else {
            assert(s[j]@.before(s[i]@));
            lemma_zxy_key(s[j], s[i]);
        }
    }
    assert forall|p: Vector3i| #[trigger] s.contains(p) <==> set.contains(p) by {
        assert(s.to_set().contains(p) == s.contains(p));
    }
}

/// The positions of a list, each once, in ZXY order.
pub fn sort_unique(positions: &[Vector3i]) -> (sorted: Vec<Vector3i>)
    ensures
        lists(sorted@, positions@.to_set()),
{
    let mut copy: Vec<Vector3i> = Vec::new();
    let mut i: usize = 0;
    while i < positions.len()
        invariant
            i <= positions@.len(),
            copy@ == positions@.take(i as int),
        decreases positions@.len() - i,
    {
        copy.push(positions[i]);
        assert(copy@ =~= positions@.take(i + 1));
        i = i + 1;
    }
    assert(positions@.take(i as int) =~= positions@);
    let all = sort_by_key(copy);
    proof {
        lemma_same_members(all@, positions@);
    }
    let mut sorted: Vec<Vector3i> = Vec::new();
    let mut i: usize = 0;
    while i < all.len()
        invariant
            i <= all@.len(),
            in_order(all@),
            forall|p: Vector3i| #[trigger] sorted@.contains(p) <==> all@.take(i as int).contains(p),
            forall|a: int, b: int|
                0 <= a < b < sorted@.len() ==> (#[trigger] sorted@[a])@.before(
                    (#[trigger] sorted@[b])@,
                ),
            sorted@.len() > 0 ==> i > 0 && sorted@[sorted@.len() - 1] == all@[i - 1],
            sorted@.len() == 0 ==> i == 0,
        decreases all@.len() - i,
    {
        let p = all[i];
        let ghost before = sorted@;
        proof {
            crate::collections::lemma_take_contains(all@, i as int);
        }
        let known = sorted.len() > 0 && sorted[sorted.len() - 1] == p;
        if !known {
            sorted.push(p);
            proof {
                assert forall|a: int, b: int| 0 <= a < b < sorted@.len() implies (
                #[trigger] sorted@[a])@.before((#[trigger] sorted@[b])@) by {
                    if b == before.len() {
                        let last = before[before.len() - 1];
                        assert(all@[i - 1].key() <= all@[i as int].key());
                        lemma_zxy_key(last, p);
                        lemma_zxy_key(before[a], last);
                        lemma_zxy_key(before[a], p);
                        if a < before.len() - 1 {
                            assert(before[a]@.before(before[before.len() - 1]@));
                        }
                    } else {
                        assert(sorted@[a] == before[a] && sorted@[b] == before[b]);
                    }
                }
                assert forall|q: Vector3i| #[trigger] sorted@.contains(q) <==> before.contains(q)
                    || q == p by {
                    if before.contains(q) {
                        let k = choose|k: int| 0 <= k < before.len() && before[k] == q;
                        assert(sorted@[k] == q);
                    }
                    assert(sorted@[before.len() as int] == p);
                    if sorted@.contains(q) && q != p {
                        let k = choose|k: int| 0 <= k < sorted@.len() && sorted@[k] == q;
                        assert(before[k] == q);
                    }
                }
            }
        } else {
            assert(sorted@[sorted@.len() - 1] == p);
            assert(sorted@.contains(p));
        }
        i = i + 1;
    }
    proof {
        assert(all@.take(i as int) =~= all@);
        assert forall|p: Vector3i| sorted@.to_set().contains(p) == positions@.to_set().contains(
            p,
        ) by {
            assert(sorted@.contains(p) == all@.contains(p));
            assert(all@.contains(p) == positions@.contains(p));
        }
        assert(sorted@.to_set() =~= positions@.to_set());
    }
    sorted
}

} // verus!
