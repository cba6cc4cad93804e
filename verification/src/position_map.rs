//! A hash map keyed by integer positions.

use crate::math::Vector3i;
use std::collections::hash_map::Entry;
use std::collections::HashMap;
use vstd::prelude::*;
use vstd::std_specs::iter::IteratorSpec;

verus! {

/// The key under which `p` is stored: its components, made non-negative, as
/// the digits of one number.
pub open spec fn packed(p: Vector3i) -> int {
    (p.x + 0x8000_0000) * 0x1_0000_0000_0000_0000 + (p.y + 0x8000_0000) * 0x1_0000_0000 + (p.z
        + 0x8000_0000)
}

/// The position that `key` stands for.
pub open spec fn unpacked(key: int) -> Vector3i {
    Vector3i {
        x: (key / 0x1_0000_0000_0000_0000 - 0x8000_0000) as i32,
        y: (key / 0x1_0000_0000 % 0x1_0000_0000 - 0x8000_0000) as i32,
        z: (key % 0x1_0000_0000 - 0x8000_0000) as i32,
    }
}

/// One more than the largest key.
pub const KEY_END: u128 = 0x1_0000_0000_0000_0000_0000_0000;

proof fn lemma_unpacked_packed(p: Vector3i)
    ensures
        0 <= packed(p) < KEY_END,
        unpacked(packed(p)) == p,
{
}

proof fn lemma_packed_unpacked(key: int)
    requires
        0 <= key < KEY_END,
    ensures
        packed(unpacked(key)) == key,
{
}

/// The first coordinate decides.
proof fn lemma_key_order(a: int, b: int, c: int, d: int, e: int, f: int)
    requires
        i32::MIN <= b <= i32::MAX,
        i32::MIN <= c <= i32::MAX,
        i32::MIN <= e <= i32::MAX,
        i32::MIN <= f <= i32::MAX,
    ensures
        a < d ==> (a + 0x8000_0000) * 0x1_0000_0000_0000_0000 + (b + 0x8000_0000) * 0x1_0000_0000 + (c
            + 0x8000_0000) < (d + 0x8000_0000) * 0x1_0000_0000_0000_0000 + (e + 0x8000_0000)
            * 0x1_0000_0000 + (f + 0x8000_0000),
{
    if a < d {
        assert((d - a) * 0x1_0000_0000_0000_0000 >= 0x1_0000_0000_0000_0000);
        assert((b - e) * 0x1_0000_0000 <= 0xffff_ffff * 0x1_0000_0000);
    }
}

/// Keys are ordered by x, then y, then z, and no two positions share one.
pub proof fn lemma_packed_order(p: Vector3i, q: Vector3i)
    ensures
        0 <= packed(p) < KEY_END,
        packed(p) == packed(q) <==> p == q,
        packed(p) < packed(q) <==> p.x < q.x || p.x == q.x && (p.y < q.y || p.y == q.y && p.z
            < q.z),
{
    lemma_unpacked_packed(p);
    if p.x != q.x {
        lemma_key_order(p.x as int, p.y as int, p.z as int, q.x as int, q.y as int, q.z as int);
        lemma_key_order(q.x as int, q.y as int, q.z as int, p.x as int, p.y as int, p.z as int);
    } else if p.y != q.y {
        assert(packed(p) - packed(q) == (p.y - q.y) * 0x1_0000_0000 + (p.z - q.z));
    } else {
        assert(packed(p) - packed(q) == p.z - q.z);
    }
}

/// There are only finitely many positions.
pub proof fn lemma_positions_finite(s: Set<Vector3i>)
    ensures
        s.finite(),
{
    let keys = vstd::set_lib::set_int_range(0, KEY_END as int);
    vstd::set_lib::lemma_int_range(0, KEY_END as int);
    let positions = keys.map(|k: int| unpacked(k));
    keys.lemma_map_finite(|k: int| unpacked(k));
    assert forall|p: Vector3i| s.contains(p) implies positions.contains(p) by {
        lemma_unpacked_packed(p);
        assert(keys.contains(packed(p)));
    }
    assert(s.subset_of(positions));
    vstd::set_lib::lemma_set_subset_finite(positions, s);
}

pub fn pack(p: Vector3i) -> (key: u128)
    ensures
        key == packed(p),
        key < KEY_END,
        unpacked(key as int) == p,
{
    proof {
        lemma_unpacked_packed(p);
    }
    let x: u128 = (p.x as i64 + 0x8000_0000) as u128;
    let y: u128 = (p.y as i64 + 0x8000_0000) as u128;
    let z: u128 = (p.z as i64 + 0x8000_0000) as u128;
    x * 0x1_0000_0000_0000_0000 + y * 0x1_0000_0000 + z
}

fn unpack(key: u128) -> (p: Vector3i)
    requires
        key < KEY_END,
    ensures
        p == unpacked(key as int),
        packed(p) == key,
{
    proof {
        lemma_packed_unpacked(key as int);
    }
    Vector3i {
        x: ((key / 0x1_0000_0000_0000_0000) as i64 - 0x8000_0000) as i32,
        y: ((key / 0x1_0000_0000 % 0x1_0000_0000) as i64 - 0x8000_0000) as i32,
        z: ((key % 0x1_0000_0000) as i64 - 0x8000_0000) as i32,
    }
}

/// `HashMap::try_reserve`: asks for room for more entries. Whether there is room
/// depends on the machine and is left open; the entries stay as they are.
#[verifier::external_body]
fn reserve_entries<V>(map: &mut HashMap<u128, V>, additional: usize) -> (reserved: bool)
    ensures
        final(map)@ == old(map)@,
{
    map.try_reserve(additional).is_ok()
}

/// A map from positions to values.
#[derive(Debug)]
pub struct PosMap<V> {
    map: HashMap<u128, V>,
}

impl<V> View for PosMap<V> {
    type V = Map<Vector3i, V>;

    closed spec fn view(&self) -> Map<Vector3i, V> {
        Map::new(
            |p: Vector3i| self.map@.contains_key(packed(p) as u128),
            |p: Vector3i| self.map@[packed(p) as u128],
        )
    }
}

impl<V> PosMap<V> {
    /// Every key stands for a position.
    pub closed spec fn wf(&self) -> bool {
        forall|k: u128| #[trigger] self.map@.contains_key(k) ==> k < KEY_END
    }

    /// Two positions never share a key.
    proof fn lemma_injective()
        ensures
            forall|p: Vector3i, q: Vector3i|
                #![trigger packed(p), packed(q)]
                packed(p) == packed(q) ==> p == q,
            forall|p: Vector3i| 0 <= #[trigger] packed(p) < KEY_END,
    {
        assert forall|p: Vector3i, q: Vector3i|
            #![trigger packed(p), packed(q)]
            packed(p) == packed(q) implies p == q by {
            lemma_unpacked_packed(p);
            lemma_unpacked_packed(q);
        }
        assert forall|p: Vector3i| 0 <= #[trigger] packed(p) < KEY_END by {
            lemma_unpacked_packed(p);
        }
    }

    /// The positions of a map are finitely many.
    pub proof fn lemma_finite(&self)
        requires
            self.wf(),
        ensures
            self@.dom().finite(),
    {
        broadcast use vstd::std_specs::hash::group_hash_axioms;

        Self::lemma_injective();
        let keys = self.map@.dom();
        let positions = keys.map(|k: u128| unpacked(k as int));
        keys.lemma_map_finite(|k: u128| unpacked(k as int));
        assert forall|p: Vector3i| self@.contains_key(p) implies positions.contains(p) by {
            lemma_unpacked_packed(p);
            assert(keys.contains(packed(p) as u128));
        }
        assert(self@.dom().subset_of(positions));
        vstd::set_lib::lemma_set_subset_finite(positions, self@.dom());
    }

    pub fn new() -> (m: PosMap<V>)
        ensures
            m.wf(),
            m@ == Map::<Vector3i, V>::empty(),
    {
        let m = PosMap { map: HashMap::new() };
        assert(m@ =~= Map::<Vector3i, V>::empty());
        m
    }

    pub fn contains(&self, p: Vector3i) -> (b: bool)
        ensures
            b == self@.contains_key(p),
    {
        broadcast use vstd::std_specs::hash::group_hash_axioms;

        let key: u128 = pack(p);
        self.map.contains_key(&key)
    }

    pub fn get(&self, p: Vector3i) -> (v: Option<&V>)
        ensures
            v is Some <==> self@.contains_key(p),
            v matches Some(r) ==> *r == self@[p],
    {
        broadcast use vstd::std_specs::hash::group_hash_axioms;

        let key: u128 = pack(p);
        self.map.get(&key)
    }

    pub fn get_mut(&mut self, p: Vector3i) -> (v: Option<&mut V>)
        requires
            old(self).wf(),
        ensures
            final(self).wf(),
            v is Some <==> old(self)@.contains_key(p),
            match v {
                Some(r) => *r == old(self)@[p] && final(self)@ == old(self)@.insert(p, *final(r)),
                None => final(self)@ == old(self)@,
            },
    {
        broadcast use vstd::std_specs::hash::group_hash_axioms;

        let key: u128 = pack(p);
        proof {
            Self::lemma_injective();
        }
        match self.map.entry(key) {
            Entry::Occupied(e) => Some(e.into_mut()),
            Entry::Vacant(_) => None,
        }
    }

    pub fn insert(&mut self, p: Vector3i, v: V) -> (previous: Option<V>)
        requires
            old(self).wf(),
        ensures
            final(self).wf(),
            final(self)@ == old(self)@.insert(p, v),
            previous == old(self)@.get(p),
    {
        broadcast use vstd::std_specs::hash::group_hash_axioms;

        let key: u128 = pack(p);
        proof {
            Self::lemma_injective();
        }
        let previous = self.map.insert(key, v);
        assert(self@ =~= old(self)@.insert(p, v));
        previous
    }

    pub fn remove(&mut self, p: Vector3i) -> (previous: Option<V>)
        requires
            old(self).wf(),
        ensures
            final(self).wf(),
            final(self)@ == old(self)@.remove(p),
            previous == old(self)@.get(p),
    {
        broadcast use vstd::std_specs::hash::group_hash_axioms;

        let key: u128 = pack(p);
        proof {
            Self::lemma_injective();
        }
        let previous = self.map.remove(&key);
        assert(self@ =~= old(self)@.remove(p));
        previous
    }

    /// Asks for room for more entries. The map holds the same entries either
    /// way. There is always room for none.
    pub fn try_reserve(&mut self, additional: usize) -> (reserved: bool)
        requires
            old(self).wf(),
        ensures
            final(self).wf(),
            final(self)@ == old(self)@,
            additional == 0 ==> reserved,
    {
        let reserved = additional == 0 || reserve_entries(&mut self.map, additional);
        assert(self@ =~= old(self)@);
        reserved
    }

    pub fn clear(&mut self)
        ensures
            final(self).wf(),
            final(self)@ == Map::<Vector3i, V>::empty(),
    {
        self.map.clear();
        assert(self@ =~= Map::<Vector3i, V>::empty());
    }

    /// The positions in the map, each once, in no particular order.
    pub fn positions(&self) -> (r: Vec<Vector3i>)
        requires
            self.wf(),
        ensures
            r@.no_duplicates(),
            r@.to_set() == self@.dom(),
            r@.len() == self@.len(),
    {
        broadcast use vstd::std_specs::hash::group_hash_axioms;

        let mut r: Vec<Vector3i> = Vec::new();
        let ghost mut keys: Seq<u128> = Seq::empty();
        let ghost total = vstd::std_specs::hash::spec_keys_iter(&self.map).remaining().unref();
        for k in it: self.map.keys()
            invariant
                self.wf(),
                it.seq().unref() == total,
                total.to_set() == self.map@.dom(),
                it.seq().no_duplicates(),
                r@.len() == it.index(),
                keys == total.take(it.index() as int),
                forall|i: int|
                    #![trigger r@[i]]
                    0 <= i < r@.len() ==> packed(r@[i]) == keys[i],
        {
            assert(it.seq().unref().contains(*k)) by {
                assert(it.seq().unref()[it.index() as int] == *k);
            }
            assert(self.map@.contains_key(*k));
            r.push(unpack(*k));
            proof {
                keys = keys.push(*k);
            }
        }
        proof {
            assert(keys =~= total);
            self.lemma_positions(keys, r@);
        }
        r
    }

    proof fn lemma_positions(&self, keys: Seq<u128>, r: Seq<Vector3i>)
        requires
            self.wf(),
            keys.to_set() == self.map@.dom(),
            keys.no_duplicates(),
            r.len() == keys.len(),
            forall|i: int| #![trigger r[i]] 0 <= i < r.len() ==> packed(r[i]) == keys[i],
        ensures
            r.no_duplicates(),
            r.to_set() == self@.dom(),
            r.len() == self@.len(),
    {
        Self::lemma_injective();
        assert forall|p: Vector3i| r.to_set().contains(p) == self@.contains_key(p) by {
            let k = packed(p) as u128;
            if r.contains(p) {
                let i = choose|i: int| 0 <= i < r.len() && r[i] == p;
                assert(keys[i] == k);
                assert(keys.contains(k));
                assert(keys.to_set().contains(k));
            }
            if self.map@.contains_key(k) {
                assert(keys.to_set().contains(k));
                let i = choose|i: int| 0 <= i < keys.len() && keys[i] == k;
                assert(packed(r[i]) == k);
                assert(r[i] == p);
                assert(r.contains(p));
            }
        }
        assert(r.to_set() =~= self@.dom());
        r.unique_seq_to_set();
    }

    pub fn len(&self) -> (n: usize)
        requires
            self.wf(),
        ensures
            n == self@.len(),
    {
        broadcast use vstd::std_specs::hash::group_hash_axioms;

        proof {
            let keys = vstd::std_specs::hash::spec_keys_iter(&self.map).remaining().unref();
            let r = Seq::new(keys.len(), |i: int| unpacked(keys[i] as int));
            assert forall|i: int| #![trigger r[i]] 0 <= i < r.len() implies packed(r[i])
                == keys[i] by {
                assert(keys.to_set().contains(keys[i]));
                assert(self.map@.contains_key(keys[i]));
                lemma_packed_unpacked(keys[i] as int);
            }
            self.lemma_positions(keys, r);
        }
        self.map.len()
    }

    pub fn is_empty(&self) -> (b: bool)
        requires
            self.wf(),
        ensures
            b == (self@.len() == 0),
            b == (self@ == Map::<Vector3i, V>::empty()),
    {
        let n: usize = self.len();
        proof {
            self.lemma_finite();
            if self@.len() == 0 {
                self@.dom().lemma_len0_is_empty();
                assert(self@ =~= Map::<Vector3i, V>::empty());
            }
        }
        n == 0
    }
}

} // verus!
