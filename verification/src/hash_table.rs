//! An associative container using open addressing with linear probing.
//!
//! All entries live directly in one backing vector of slots. A removed entry
//! leaves a tombstone behind, which lookups skip over, so that probe chains of
//! the remaining keys stay intact; tombstones count toward the load factor and
//! are compacted away when the table grows.

use vstd::prelude::*;
use vstd::map::*;
use crate::key::TableKey;

verus! {

/// One storage cell: empty, a tombstone left by a removal, or an entry.
pub(crate) enum Entry<Key, Value> {
    Vacant,
    Tombstone,
    Occupied { key: Key, value: Value },
}

impl<Key, Value> Entry<Key, Value> {
    /// Takes the value out of an occupied slot, leaving a tombstone in its
    /// place so that probe chains running through the slot stay intact;
    /// leaves any other slot unchanged.
    fn take(&mut self) -> (r: Option<Value>)
        ensures
            (*old(self)) is Occupied ==> r == Some(entry_value(*old(self))) && *final(self)
                == Entry::<Key, Value>::Tombstone,
            !((*old(self)) is Occupied) ==> r == None::<Value> && *final(self) == *old(self),
    {
        match self {
            Entry::Occupied { key: _, value: _ } => {
                let mut taken = Entry::Tombstone;
                core::mem::swap(self, &mut taken);
                match taken {
                    Entry::Occupied { key: _, value } => Some(value),
                    _ => vstd::pervasive::unreached(),
                }
            },
            _ => None,
        }
    }

    /// Swaps a new value into an occupied slot, returning the old value and
    /// keeping the stored key; leaves any other slot unchanged.
    fn replace(&mut self, x: Value) -> (r: Option<Value>)
        ensures
            (*old(self)) is Occupied ==> r == Some(entry_value(*old(self))) && *final(self) == (
            Entry::Occupied { key: entry_key(*old(self)), value: x }),
            !((*old(self)) is Occupied) ==> r == None::<Value> && *final(self) == *old(self),
    {
        match self {
            Entry::Occupied { key: _, value } => {
                let mut x = x;
                core::mem::swap(&mut x, value);
                Some(x)
            },
            _ => None,
        }
    }
}

/// The view of an occupied slot's key.
pub(crate) open spec fn entry_key_view<K: View, V>(e: Entry<K, V>) -> K::V {
    match e {
        Entry::Occupied { key, value: _ } => key@,
        _ => vstd::pervasive::arbitrary(),
    }
}

/// The key stored in an occupied slot.
pub(crate) open spec fn entry_key<K, V>(e: Entry<K, V>) -> K {
    match e {
        Entry::Occupied { key, value: _ } => key,
        _ => vstd::pervasive::arbitrary(),
    }
}

/// The value stored in an occupied slot.
pub(crate) open spec fn entry_value<K, V>(e: Entry<K, V>) -> V {
    match e {
        Entry::Occupied { key: _, value } => value,
        _ => vstd::pervasive::arbitrary(),
    }
}

/// The mapping that a slot sequence represents: the bindings of all occupied
/// slots, keyed by the views of their keys.
pub(crate) open spec fn entries_map<K: View, V>(s: Seq<Entry<K, V>>) -> Map<K::V, V>
    decreases s.len(),
{
    if s.len() == 0 {
        Map::empty()
    } else {
        let m = entries_map(s.drop_last());
        match s.last() {
            Entry::Occupied { key, value } => m.insert(key@, value),
            _ => m,
        }
    }
}

/// How many slots of `s` are occupied.
pub(crate) open spec fn occ_count<K, V>(s: Seq<Entry<K, V>>) -> nat
    decreases s.len(),
{
    if s.len() == 0 {
        0
    } else {
        occ_count(s.drop_last()) + if s.last() is Occupied {
            1nat
        } else {
            0nat
        }
    }
}

/// How many slots of `s` are vacant.
pub(crate) open spec fn vac_count<K, V>(s: Seq<Entry<K, V>>) -> nat
    decreases s.len(),
{
    if s.len() == 0 {
        0
    } else {
        vac_count(s.drop_last()) + if s.last() is Vacant {
            1nat
        } else {
            0nat
        }
    }
}

/// The slot index where the probe sequence of a key with view `kv` begins.
pub(crate) open spec fn start_of<K: TableKey>(kv: K::V, cap: int) -> int {
    (K::hash_of(kv) as int) % cap
}

/// How many steps a cyclic scan that begins at `start` takes to reach slot
/// `i`, in a table of `cap` slots.
pub(crate) open spec fn wrap_dist(start: int, i: int, cap: int) -> int {
    if i >= start {
        i - start
    } else {
        i + cap - start
    }
}

/// Each key view occurs in at most one occupied slot.
pub(crate) open spec fn keys_distinct<K: View, V>(s: Seq<Entry<K, V>>) -> bool {
    forall|a: int, b: int|
        #![trigger s[a], s[b]]
        0 <= a < s.len() && 0 <= b < s.len() && a != b && s[a] is Occupied && s[b] is Occupied
            ==> entry_key_view(s[a]) != entry_key_view(s[b])
}

/// The probe-chain property: for every occupied slot, the cyclic scan from its
/// key's start index reaches the slot before any vacant slot. Tombstones are
/// allowed on the way; a vacant slot is not.
pub(crate) open spec fn probe_clear<K: TableKey, V>(s: Seq<Entry<K, V>>) -> bool {
    forall|i: int, j: int|
        #![trigger s[i], s[j]]
        0 <= i < s.len() && 0 <= j < s.len() && s[i] is Occupied && wrap_dist(
            start_of::<K>(entry_key_view(s[i]), s.len() as int),
            j,
            s.len() as int,
        ) < wrap_dist(start_of::<K>(entry_key_view(s[i]), s.len() as int), i, s.len() as int)
            ==> !(s[j] is Vacant)
}

/// A mapping from `Key` to `Value`, stored in a fixed-capacity slot vector
/// that is grown by doubling under load-factor pressure.
pub struct HashTable<Key, Value> {
    entries: Vec<Entry<Key, Value>>,
    occupied_size: usize,
    vacant_size: usize,
}

impl<Key: View, Value> View for HashTable<Key, Value> {
    type V = Map<Key::V, Value>;

    closed spec fn view(&self) -> Map<Key::V, Value> {
        entries_map(self.entries@)
    }
}

impl<Key: TableKey, Value> HashTable<Key, Value> {
    /// The capacity: the number of slots of the backing storage.
    pub closed spec fn spec_cap(&self) -> int {
        self.entries@.len() as int
    }

    /// How many slots are in use for load-factor purposes: occupied slots
    /// plus tombstones.
    pub closed spec fn spec_used(&self) -> int {
        self.spec_cap() - vac_count(self.entries@)
    }

    /// The internal invariant: the counters match the storage, a positive
    /// capacity is at least the floor capacity and keeps at least one vacant
    /// slot, keys are unique, and every probe chain is unbroken.
    pub closed spec fn wf(&self) -> bool {
        let s = self.entries@;
        &&& self.occupied_size as nat == occ_count(s)
        &&& self.vacant_size as nat == vac_count(s)
        &&& (s.len() == 0 || s.len() >= 64)
        &&& (s.len() > 0 ==> vac_count(s) >= 1)
        &&& keys_distinct(s)
        &&& probe_clear(s)
    }

    /// Creates an empty table. Storage is not allocated until the first
    /// insertion.
    pub fn new() -> (t: Self)
        ensures
            t.wf(),
            t@ == Map::<Key::V, Value>::empty(),
            t.spec_cap() == 0,
            t.spec_used() == 0,
    {
        let t = Self { entries: Vec::new(), occupied_size: 0, vacant_size: 0 };
        proof {
            assert(t@ =~= Map::<Key::V, Value>::empty());
        }
        t
    }

    /// The number of entries currently stored.
    pub fn len(&self) -> (n: usize)
        requires
            self.wf(),
        ensures
            n as int == self@.dom().len(),
    {
        proof {
            lemma_map_card(self.entries@);
        }
        self.occupied_size
    }

    /// Scans cyclically from the key's start index. Returns `Ok` with the
    /// index of the slot holding the key, or `Err` with the index of the
    /// first vacant slot if the key is absent. Either way, no scanned slot
    /// before the returned one is vacant.
    fn probe_find(&self, key: &Key) -> (r: Result<usize, usize>)
        requires
            self.wf(),
            self.spec_cap() > 0,
        ensures
            ({
                let s = self.entries@;
                let cap = s.len() as int;
                let start = start_of::<Key>(key@, cap);
                match r {
                    Ok(i) => 0 <= i < cap && s[i as int] is Occupied && entry_key_view(s[i as int])
                        == key@ && self@.contains_key(key@) && self@[key@] == entry_value(
                        s[i as int],
                    ) && forall|j: int|
                        #![trigger s[j]]
                        0 <= j < cap && wrap_dist(start, j, cap) < wrap_dist(start, i as int, cap)
                            ==> !(s[j] is Vacant),
                    Err(i) => 0 <= i < cap && s[i as int] is Vacant && !self@.contains_key(key@)
                        && forall|j: int|
                        #![trigger s[j]]
                        0 <= j < cap && wrap_dist(start, j, cap) < wrap_dist(start, i as int, cap)
                            ==> !(s[j] is Vacant),
                }
            }),
    {
        let cap: usize = self.entries.len();
        let h: u64 = key.hash_code();
        let start: usize = (h % (cap as u64)) as usize;
        let ghost startg: int = start_of::<Key>(key@, cap as int);
        proof {
            assert(start as int == startg);
        }
        let mut idx: usize = start;
        let mut d: usize = 0;
        while d < cap
            invariant
                self.wf(),
                cap == self.entries@.len(),
                cap > 0,
                startg == start_of::<Key>(key@, cap as int),
                0 <= startg < cap,
                start as int == startg,
                d <= cap,
                idx < cap,
                d < cap ==> wrap_dist(startg, idx as int, cap as int) == d as int,
                forall|j: int|
                    #![trigger self.entries@[j]]
                    0 <= j < cap && wrap_dist(startg, j, cap as int) < d as int ==> !(
                    self.entries@[j] is Vacant) && (self.entries@[j] is Occupied
                        ==> entry_key_view(self.entries@[j]) != key@),
            decreases cap - d,
        {
            let ghost oldidx: int = idx as int;
            match &self.entries[idx] {
                Entry::Vacant => {
                    proof {
                        if self@.contains_key(key@) {
                            lemma_map_exists(self.entries@, key@);
                            let a = choose|a: int|
                                0 <= a < self.entries@.len() && #[trigger] (
                                self.entries@[a] is Occupied) && entry_key_view(self.entries@[a])
                                    == key@;
                            let da = wrap_dist(startg, a, cap as int);
                            let dv = wrap_dist(startg, oldidx, cap as int);
                            if da < dv {
                                assert(!(self.entries@[oldidx] is Vacant));
                            } else if dv < da {
                                assert(!(self.entries@[a] is Vacant));
                            } else {
                                assert(a == oldidx);
                            }
                        }
                    }
                    return Err(idx);
                },
                Entry::Occupied { key: k, value: _ } => {
                    if k.key_eq(key) {
                        proof {
                            lemma_map_slot(self.entries@, idx as int);
                        }
                        return Ok(idx);
                    }
                },
                Entry::Tombstone => {},
            }
            proof {
                assert forall|j: int|
                    0 <= j < cap && wrap_dist(startg, j, cap as int) < d as int
                        + 1 implies !(self.entries@[j] is Vacant) && (self.entries@[j] is Occupied
                    ==> entry_key_view(self.entries@[j]) != key@) by {
                    if wrap_dist(startg, j, cap as int) == d as int {
                        assert(j == oldidx);
                    }
                }
            }
            idx = if idx + 1 == cap {
                0
            } else {
                idx + 1
            };
            d = d + 1;
        }
        proof {
            lemma_vac_exists(self.entries@);
            let j = choose|j: int| 0 <= j < self.entries@.len() && self.entries@[j] is Vacant;
            assert(wrap_dist(startg, j, cap as int) < cap as int);
        }
        vstd::pervasive::unreached()
    }

    /// Looks the key up. Returns a reference to its value, or nothing if the
    /// key is absent. Read-only.
    pub fn get(&self, key: &Key) -> (r: Option<&Value>)
        requires
            self.wf(),
        ensures
            match r {
                Some(v) => self@.contains_key(key@) && *v == self@[key@],
                None => !self@.contains_key(key@),
            },
    {
        if self.occupied_size == 0 {
            proof {
                lemma_occ_zero::<Key, Value>(self.entries@);
            }
            return None;
        }
        proof {
            lemma_counts_bound(self.entries@);
        }
        match self.probe_find(key) {
            Ok(i) => match &self.entries[i] {
                Entry::Occupied { key: _, value } => Some(value),
                _ => vstd::pervasive::unreached(),
            },
            Err(_) => None,
        }
    }

    /// Places the entry by probing, without ever growing the storage. The
    /// caller must leave enough slack for the placement to keep a vacant slot.
    fn insert_without_resize(&mut self, key: Key, value: Value) -> (r: Option<Value>)
        requires
            old(self).wf(),
            old(self).spec_cap() > 0,
            old(self).spec_cap() - old(self).spec_used() >= 2,
        ensures
            final(self).wf(),
            final(self)@ == old(self)@.insert(key@, value),
            r == (if old(self)@.contains_key(key@) {
                Some(old(self)@[key@])
            } else {
                None::<Value>
            }),
            final(self).spec_cap() == old(self).spec_cap(),
            final(self).spec_used() == old(self).spec_used() + (if old(self)@.contains_key(key@) {
                0int
            } else {
                1int
            }),
            final(self)@.dom().len() == old(self)@.dom().len() + (if old(self)@.contains_key(
                key@,
            ) {
                0int
            } else {
                1int
            }),
    {
        let ghost s0 = self.entries@;
        let ghost newe: Entry<Key, Value> = Entry::Occupied { key, value };
        let cap_now: usize = self.entries.len();
        proof {
            assert(s0.len() == cap_now as nat);
            lemma_counts_bound(s0);
            lemma_map_card(s0);
        }
        match self.probe_find(&key) {
            Ok(i) => {
                let ghost kept: Entry<Key, Value> = Entry::Occupied {
                    key: entry_key(s0[i as int]),
                    value,
                };
                let r = self.entries[i].replace(value);
                proof {
                    assert(entry_key_view(kept) == entry_key_view(s0[i as int]));
                    assert(self.entries@ =~= s0.update(i as int, kept));
                    lemma_map_replace(s0, i as int, kept);
                    lemma_distinct_update(s0, i as int, kept);
                    assert forall|j: int|
                        0 <= j < s0.len() && wrap_dist(
                            start_of::<Key>(entry_key_view(kept), s0.len() as int),
                            j,
                            s0.len() as int,
                        ) < wrap_dist(
                            start_of::<Key>(entry_key_view(kept), s0.len() as int),
                            i as int,
                            s0.len() as int,
                        ) implies !(s0[j] is Vacant) by {
                        assert(entry_key_view(kept) == entry_key_view(s0[i as int]));
                        assert(s0[i as int] is Occupied);
                    }
                    lemma_probe_preserved(s0, i as int, kept);
                    lemma_counts_update(s0, i as int, kept);
                    lemma_map_card(self.entries@);
                }
                r
            },
            Err(i) => {
                let mut e = Entry::Occupied { key, value };
                core::mem::swap(&mut e, &mut self.entries[i]);
                proof {
                    lemma_counts_bound(s0);
                }
                self.occupied_size = self.occupied_size + 1;
                self.vacant_size = self.vacant_size - 1;
                proof {
                    assert(self.entries@ =~= s0.update(i as int, newe));
                    assert forall|j: int|
                        0 <= j < s0.len() && s0[j] is Occupied implies entry_key_view(s0[j])
                        != entry_key_view(newe) by {
                        if entry_key_view(s0[j]) == entry_key_view(newe) {
                            lemma_map_slot(s0, j);
                        }
                    }
                    lemma_map_place(s0, i as int, newe);
                    lemma_distinct_update(s0, i as int, newe);
                    assert forall|j: int|
                        0 <= j < s0.len() && wrap_dist(
                            start_of::<Key>(entry_key_view(newe), s0.len() as int),
                            j,
                            s0.len() as int,
                        ) < wrap_dist(
                            start_of::<Key>(entry_key_view(newe), s0.len() as int),
                            i as int,
                            s0.len() as int,
                        ) implies !(s0[j] is Vacant) by {}
                    lemma_probe_preserved(s0, i as int, newe);
                    lemma_counts_update(s0, i as int, newe);
                    lemma_map_card(self.entries@);
                }
                None
            },
        }
    }

    /// Allocates fresh storage of twice the capacity (at least the floor
    /// capacity of 64), re-inserts every occupied entry, and discards the old
    /// storage. Tombstones are compacted away; the mapping is unchanged.
    fn resize(&mut self)
        requires
            old(self).wf(),
            old(self).spec_cap() <= usize::MAX as int / 4,
        ensures
            final(self).wf(),
            final(self)@ == old(self)@,
            final(self).spec_cap() == vstd::math::max(64, 2 * old(self).spec_cap()),
            final(self).spec_used() == old(self)@.dom().len(),
            final(self).spec_cap() - final(self).spec_used() >= 64,
    {
        let cap: usize = self.entries.len();
        let doubled: usize = cap * 2;
        let new_cap: usize = if doubled < 64 {
            64
        } else {
            doubled
        };
        let mut fresh: Vec<Entry<Key, Value>> = Vec::new();
        let mut j: usize = 0;
        while j < new_cap
            invariant
                fresh@.len() == j as nat,
                j <= new_cap,
                forall|t: int| #![trigger fresh@[t]] 0 <= t < j ==> fresh@[t] is Vacant,
            decreases new_cap - j,
        {
            fresh.push(Entry::Vacant);
            j = j + 1;
        }
        let ghost oldmap = entries_map(old(self).entries@);
        let ghost oldocc = occ_count(old(self).entries@);
        proof {
            lemma_counts_bound(old(self).entries@);
            lemma_map_card(old(self).entries@);
        }
        let mut old_entries: Vec<Entry<Key, Value>> = fresh;
        core::mem::swap(&mut old_entries, &mut self.entries);
        self.occupied_size = 0;
        self.vacant_size = new_cap;
        proof {
            lemma_counts_from_vacant(self.entries@);
            lemma_occ_zero::<Key, Value>(self.entries@);
        }
        while old_entries.len() > 0
            invariant
                self.wf(),
                self.spec_cap() == new_cap as int,
                new_cap >= 64,
                new_cap as int >= 2 * old(self).spec_cap(),
                keys_distinct(old_entries@),
                forall|kv: <Key as View>::V| #![trigger self@.contains_key(kv)] self@.contains_key(
                    kv,
                ) ==> !entries_map(old_entries@).contains_key(kv),
                entries_map(old_entries@).union_prefer_right(self@) == oldmap,
                self.spec_used() == self@.dom().len(),
                self@.dom().len() + occ_count(old_entries@) == oldocc,
                oldocc <= old(self).spec_cap(),
            decreases old_entries@.len(),
        {
            let ghost pre = old_entries@;
            let e = old_entries.pop().unwrap();
            proof {
                assert(e == pre.last());
                assert(old_entries@ =~= pre.drop_last());
            }
            match e {
                Entry::Occupied { key, value } => {
                    let ghost kv = key@;
                    proof {
                        lemma_distinct_prefix(pre);
                        let p = pre.drop_last();
                        assert forall|t: int|
                            0 <= t < p.len() && p[t] is Occupied implies entry_key_view(p[t])
                            != kv by {
                            assert(p[t] == pre[t]);
                            assert(pre[pre.len() - 1] == pre.last());
                        }
                        lemma_map_absent(p, kv);
                        assert(entries_map(pre).contains_key(kv));
                    }
                    let ghost premap = self@;
                    let _ = self.insert_without_resize(key, value);
                    proof {
                        assert(entries_map(old_entries@).union_prefer_right(self@) =~= oldmap);
                        assert forall|kv2: <Key as View>::V| self@.contains_key(
                            kv2,
                        ) implies !entries_map(old_entries@).contains_key(kv2) by {
                            if kv2 != kv && entries_map(old_entries@).contains_key(kv2) {
                                assert(entries_map(pre).contains_key(kv2));
                                assert(premap.contains_key(kv2));
                            }
                        }
                    }
                },
                _ => {
                    proof {
                        assert(entries_map(old_entries@) == entries_map(pre));
                        assert(occ_count(old_entries@) == occ_count(pre));
                    }
                },
            }
        }
        proof {
            assert(entries_map(old_entries@) =~= Map::<Key::V, Value>::empty());
            assert(self@ =~= oldmap);
        }
    }

    /// Inserts the pair, first growing the table if the load factor (counting
    /// tombstones) has reached 3/4 or no storage exists yet. Returns the
    /// previous value of the key, if any.
    pub fn insert(&mut self, key: Key, value: Value) -> (r: Option<Value>)
        requires
            old(self).wf(),
            old(self).spec_cap() <= usize::MAX as int / 4,
        ensures
            final(self).wf(),
            final(self)@ == old(self)@.insert(key@, value),
            r == (if old(self)@.contains_key(key@) {
                Some(old(self)@[key@])
            } else {
                None::<Value>
            }),
            final(self)@.dom().len() == old(self)@.dom().len() + (if old(self)@.contains_key(
                key@,
            ) {
                0int
            } else {
                1int
            }),
            final(self).spec_used() <= old(self).spec_used() + 1,
            final(self).spec_cap() == old(self).spec_cap() || (4 * old(self).spec_used() >= 3 * old(
                self,
            ).spec_cap() && final(self).spec_cap() == vstd::math::max(
                64,
                2 * old(self).spec_cap(),
            )),
            final(self).spec_cap() >= 64,
            final(self).spec_cap() <= vstd::math::max(64, 2 * old(self).spec_cap()),
    {
        proof {
            lemma_counts_bound(self.entries@);
            lemma_map_card(self.entries@);
        }
        if self.entries.len() == 0 || self.vacant_size <= self.entries.len() / 4 {
            self.resize();
            self.insert_without_resize(key, value)
        } else {
            self.insert_without_resize(key, value)
        }
    }

    /// Removes the key's entry, leaving a tombstone in its slot so that other
    /// probe chains stay intact. Returns the removed value, if any.
    pub fn remove(&mut self, key: &Key) -> (r: Option<Value>)
        requires
            old(self).wf(),
        ensures
            final(self).wf(),
            final(self)@ == old(self)@.remove(key@),
            r == (if old(self)@.contains_key(key@) {
                Some(old(self)@[key@])
            } else {
                None::<Value>
            }),
            final(self).spec_cap() == old(self).spec_cap(),
            final(self).spec_used() == old(self).spec_used(),
            old(self)@.dom().len() == final(self)@.dom().len() + (if old(self)@.contains_key(
                key@,
            ) {
                1int
            } else {
                0int
            }),
    {
        if self.occupied_size == 0 {
            proof {
                lemma_occ_zero::<Key, Value>(self.entries@);
                assert(old(self)@.remove(key@) =~= old(self)@);
            }
            return None;
        }
        proof {
            lemma_counts_bound(self.entries@);
            lemma_map_card(self.entries@);
        }
        let ghost s0 = self.entries@;
        match self.probe_find(key) {
            Ok(i) => {
                let r = self.entries[i].take();
                self.occupied_size = self.occupied_size - 1;
                proof {
                    assert(self.entries@ =~= s0.update(i as int, Entry::Tombstone));
                    lemma_map_clear(s0, i as int, Entry::Tombstone);
                    lemma_distinct_update(s0, i as int, Entry::Tombstone);
                    lemma_probe_preserved(s0, i as int, Entry::Tombstone);
                    lemma_counts_update(s0, i as int, Entry::Tombstone);
                    lemma_map_card(self.entries@);
                }
                r
            },
            Err(_) => {
                proof {
                    assert(old(self)@.remove(key@) =~= old(self)@);
                }
                None
            },
        }
    }

    /// Reports whether the key is present, as `get(key).is_some()`.
    pub fn contains_key(&self, key: &Key) -> (b: bool)
        requires
            self.wf(),
        ensures
            b == self@.contains_key(key@),
    {
        self.get(key).is_some()
    }

    /// Looks the key up and hands out a mutable reference to its value, or
    /// nothing if the key is absent. The caller's writes through the
    /// reference become the key's new binding.
    pub fn get_mut(&mut self, key: &Key) -> (r: Option<&mut Value>)
        requires
            old(self).wf(),
        ensures
            match r {
                Some(v) => {
                    &&& old(self)@.contains_key(key@)
                    &&& *v == old(self)@[key@]
                    &&& final(self).wf()
                    &&& final(self)@ == old(self)@.insert(key@, *final(v))
                    &&& final(self).spec_cap() == old(self).spec_cap()
                    &&& final(self).spec_used() == old(self).spec_used()
                },
                None => {
                    &&& !old(self)@.contains_key(key@)
                    &&& *final(self) == *old(self)
                },
            },
    {
        if self.occupied_size == 0 {
            proof {
                lemma_occ_zero::<Key, Value>(self.entries@);
            }
            return None;
        }
        proof {
            lemma_counts_bound(self.entries@);
        }
        let ghost s0 = self.entries@;
        match self.probe_find(key) {
            Ok(i) => {
                proof {
                    lemma_replace_value_keeps(s0, i as int);
                }
                match &mut self.entries[i] {
                    Entry::Occupied { key: _, value } => Some(value),
                    _ => vstd::pervasive::unreached(),
                }
            },
            Err(_) => None,
        }
    }

    /// Collects references to all stored pairs, in storage order. The result
    /// lists exactly the bindings of the table, each once.
    pub fn iter(&self) -> (r: Vec<(&Key, &Value)>)
        requires
            self.wf(),
        ensures
            r@.len() == self@.dom().len(),
            forall|i: int|
                #![trigger r@[i]]
                0 <= i < r@.len() ==> self@.contains_key(r@[i].0@) && *(r@[i].1) == self@[r@[i].0@],
            forall|kv: Key::V| #![trigger self@.contains_key(kv)] self@.contains_key(kv)
                ==> exists|i: int| 0 <= i < r@.len() && #[trigger] (r@[i].0@) == kv,
    {
        let mut r: Vec<(&Key, &Value)> = Vec::new();
        let n: usize = self.entries.len();
        let mut j: usize = 0;
        while j < n
            invariant
                self.wf(),
                n == self.entries@.len(),
                j <= n,
                r@.len() == occ_count(self.entries@.take(j as int)),
                forall|i: int|
                    #![trigger r@[i]]
                    0 <= i < r@.len() ==> self@.contains_key(r@[i].0@) && *(r@[i].1)
                        == self@[r@[i].0@],
                forall|kv: Key::V|
                    #![trigger entries_map(self.entries@.take(j as int)).contains_key(kv)]
                    entries_map(self.entries@.take(j as int)).contains_key(kv) ==> exists|i: int|
                    0 <= i < r@.len() && #[trigger] (r@[i].0@) == kv,
            decreases n - j,
        {
            proof {
                assert(self.entries@.take(j as int + 1).drop_last() =~= self.entries@.take(
                    j as int,
                ));
                assert(self.entries@.take(j as int + 1).last() == self.entries@[j as int]);
            }
            let ghost r0 = r@;
            match &self.entries[j] {
                Entry::Occupied { key, value } => {
                    proof {
                        lemma_map_slot(self.entries@, j as int);
                    }
                    r.push((key, value));
                    proof {
                        let kj = entry_key_view(self.entries@[j as int]);
                        assert(r@[r@.len() - 1].0@ == kj);
                        assert forall|kv: Key::V|
                            #![trigger entries_map(self.entries@.take(j as int + 1)).contains_key(kv)]
                            entries_map(self.entries@.take(j as int + 1)).contains_key(
                                kv,
                            ) implies exists|i: int|
                            0 <= i < r@.len() && #[trigger] (r@[i].0@) == kv by {
                            if kv == kj {
                                assert(0 <= r@.len() - 1 < r@.len() && (r@[r@.len() - 1].0@) == kv);
                            } else {
                                assert(entries_map(self.entries@.take(j as int)).contains_key(kv));
                                let wi = choose|i: int|
                                    0 <= i < r0.len() && #[trigger] (r0[i].0@) == kv;
                                assert(0 <= wi < r@.len() && (r@[wi].0@) == kv);
                            }
                        }
                    }
                },
                _ => {
                    proof {
                        assert(entries_map(self.entries@.take(j as int + 1)) == entries_map(
                            self.entries@.take(j as int),
                        ));
                        assert forall|kv: Key::V|
                            #![trigger entries_map(self.entries@.take(j as int + 1)).contains_key(kv)]
                            entries_map(self.entries@.take(j as int + 1)).contains_key(
                                kv,
                            ) implies exists|i: int|
                            0 <= i < r@.len() && #[trigger] (r@[i].0@) == kv by {
                            assert(entries_map(self.entries@.take(j as int)).contains_key(kv));
                            let wi = choose|i: int| 0 <= i < r0.len() && #[trigger] (r0[i].0@) == kv;
                            assert(0 <= wi < r@.len() && (r@[wi].0@) == kv);
                        }
                    }
                },
            }
            j = j + 1;
        }
        proof {
            assert(self.entries@.take(n as int) =~= self.entries@);
            lemma_map_card(self.entries@);
        }
        r
    }
}

/// After `insert(k, v)` the lookup of `k` yields `v`, and every other key's
/// binding is exactly what it was before, until a later operation overwrites
/// or removes it. Stated over the mapping view that `insert` and `get`
/// promise in their contracts.
pub proof fn lemma_insert_then_get<KV, V>(m: Map<KV, V>, k: KV, v: V)
    ensures
        m.insert(k, v).contains_key(k),
        m.insert(k, v)[k] == v,
        forall|k2: KV| #![trigger m.insert(k, v).contains_key(k2)] k2 != k ==> m.insert(
            k,
            v,
        ).contains_key(k2) == m.contains_key(k2),
        forall|k2: KV| #![trigger m.insert(k, v)[k2]] k2 != k && m.contains_key(k2) ==> m.insert(
            k,
            v,
        )[k2] == m[k2],
{
}

/// Inserting the same key twice: the second insert leaves the number of
/// entries unchanged, the lookup yields the newest value, and the binding the
/// second insert replaces (the previous value it returns) is the first one.
pub proof fn lemma_double_insert<KV, V>(m: Map<KV, V>, k: KV, v1: V, v2: V)
    ensures
        m.insert(k, v1).insert(k, v2) == m.insert(k, v2),
        m.insert(k, v1).insert(k, v2).dom().len() == m.insert(k, v1).dom().len(),
        m.insert(k, v1)[k] == v1,
        m.insert(k, v1).insert(k, v2)[k] == v2,
{
    assert(m.insert(k, v1).insert(k, v2) =~= m.insert(k, v2));
    assert(m.insert(k, v1).insert(k, v2).dom() =~= m.insert(k, v1).dom());
}

/// Removing a key that is not present changes nothing.
pub proof fn lemma_remove_absent<KV, V>(m: Map<KV, V>, k: KV)
    requires
        !m.contains_key(k),
    ensures
        m.remove(k) == m,
{
    assert(m.remove(k) =~= m);
}

/// A key bound in the mapping is held by some occupied slot.
proof fn lemma_map_exists<K: View, V>(s: Seq<Entry<K, V>>, kv: K::V)
    requires
        entries_map(s).contains_key(kv),
    ensures
        exists|i: int| 0 <= i < s.len() && #[trigger] (s[i] is Occupied) && entry_key_view(s[i])
            == kv,
    decreases s.len(),
{
    if s.len() == 0 {
    } else if s.last() is Occupied && entry_key_view(s.last()) == kv {
        assert(s[s.len() - 1] is Occupied && entry_key_view(s[s.len() - 1]) == kv);
    } else {
        assert(s.last() == s[s.len() - 1]);
        lemma_map_exists(s.drop_last(), kv);
        let i = choose|i: int|
            0 <= i < s.drop_last().len() && #[trigger] (s.drop_last()[i] is Occupied)
                && entry_key_view(s.drop_last()[i]) == kv;
        assert(s[i] is Occupied && entry_key_view(s[i]) == kv);
    }
}

/// Occupied and vacant slots together never outnumber the slots.
proof fn lemma_counts_bound<K, V>(s: Seq<Entry<K, V>>)
    ensures
        occ_count(s) + vac_count(s) <= s.len(),
    decreases s.len(),
{
    if s.len() > 0 {
        lemma_counts_bound(s.drop_last());
    }
}

/// Removing the last slot keeps the remaining keys distinct.
proof fn lemma_distinct_prefix<K: View, V>(s: Seq<Entry<K, V>>)
    requires
        s.len() > 0,
        keys_distinct(s),
    ensures
        keys_distinct(s.drop_last()),
{
    let p = s.drop_last();
    assert forall|a: int, b: int|
        0 <= a < p.len() && 0 <= b < p.len() && a != b && p[a] is Occupied
            && p[b] is Occupied implies entry_key_view(p[a]) != entry_key_view(p[b]) by {
        assert(p[a] == s[a]);
        assert(p[b] == s[b]);
    }
}

/// A slot holding a key gives the mapping a binding for that key.
proof fn lemma_map_slot<K: View, V>(s: Seq<Entry<K, V>>, i: int)
    requires
        0 <= i < s.len(),
        s[i] is Occupied,
        keys_distinct(s),
    ensures
        entries_map(s).contains_key(entry_key_view(s[i])),
        entries_map(s)[entry_key_view(s[i])] == entry_value(s[i]),
    decreases s.len(),
{
    if i == s.len() - 1 {
        assert(s.last() == s[i]);
    } else {
        lemma_distinct_prefix(s);
        assert(s.drop_last()[i] == s[i]);
        lemma_map_slot(s.drop_last(), i);
        if s.last() is Occupied {
            assert(s[s.len() - 1] == s.last());
            assert(entry_key_view(s.last()) != entry_key_view(s[i]));
        }
    }
}

/// A key view held by no occupied slot is absent from the mapping.
proof fn lemma_map_absent<K: View, V>(s: Seq<Entry<K, V>>, kv: K::V)
    requires
        forall|j: int| #![trigger s[j]] 0 <= j < s.len() && s[j] is Occupied ==> entry_key_view(s[j]) != kv,
    ensures
        !entries_map(s).contains_key(kv),
    decreases s.len(),
{
    if s.len() > 0 {
        let p = s.drop_last();
        assert forall|j: int| 0 <= j < p.len() && p[j] is Occupied implies entry_key_view(p[j]) != kv by {
            assert(p[j] == s[j]);
        }
        lemma_map_absent(p, kv);
        assert(s.last() == s[s.len() - 1]);
    }
}

/// A table with no occupied slot represents the empty mapping.
proof fn lemma_occ_zero<K: View, V>(s: Seq<Entry<K, V>>)
    requires
        occ_count(s) == 0,
    ensures
        entries_map(s) == Map::<K::V, V>::empty(),
        forall|j: int| #![trigger s[j]] 0 <= j < s.len() ==> !(s[j] is Occupied),
    decreases s.len(),
{
    if s.len() == 0 {
        assert(entries_map(s) =~= Map::<K::V, V>::empty());
    } else {
        lemma_occ_zero::<K, V>(s.drop_last());
        assert(s.last() == s[s.len() - 1]);
        assert forall|j: int| 0 <= j < s.len() implies !(s[j] is Occupied) by {
            if j < s.len() - 1 {
                assert(s.drop_last()[j] == s[j]);
            }
        }
    }
}

/// If any slot is vacant by the count, some slot is vacant.
proof fn lemma_vac_exists<K, V>(s: Seq<Entry<K, V>>)
    requires
        vac_count(s) > 0,
    ensures
        exists|j: int| 0 <= j < s.len() && s[j] is Vacant,
    decreases s.len(),
{
    if s.last() is Vacant {
        assert(s[s.len() - 1] is Vacant);
    } else {
        lemma_vac_exists(s.drop_last());
        let j = choose|j: int| 0 <= j < s.drop_last().len() && s.drop_last()[j] is Vacant;
        assert(s[j] is Vacant);
    }
}

/// The mapping has exactly as many bindings as there are occupied slots.
proof fn lemma_map_card<K: View, V>(s: Seq<Entry<K, V>>)
    requires
        keys_distinct(s),
    ensures
        entries_map(s).dom().finite(),
        entries_map(s).dom().len() == occ_count(s),
    decreases s.len(),
{
    if s.len() == 0 {
        assert(entries_map(s).dom() =~= Set::<K::V>::empty());
    } else {
        lemma_distinct_prefix(s);
        lemma_map_card(s.drop_last());
        if s.last() is Occupied {
            let p = s.drop_last();
            assert(s[s.len() - 1] == s.last());
            assert forall|j: int| 0 <= j < p.len() && p[j] is Occupied implies entry_key_view(p[j])
                != entry_key_view(s.last()) by {
                assert(p[j] == s[j]);
            }
            lemma_map_absent(p, entry_key_view(s.last()));
        }
    }
}

/// A storage made of vacant slots only has the counts to match.
proof fn lemma_counts_from_vacant<K, V>(s: Seq<Entry<K, V>>)
    requires
        forall|t: int| #![trigger s[t]] 0 <= t < s.len() ==> s[t] is Vacant,
    ensures
        occ_count(s) == 0,
        vac_count(s) == s.len(),
    decreases s.len(),
{
    if s.len() > 0 {
        let p = s.drop_last();
        assert forall|t: int| 0 <= t < p.len() implies p[t] is Vacant by {
            assert(p[t] == s[t]);
        }
        lemma_counts_from_vacant(p);
        assert(s.last() == s[s.len() - 1]);
    }
}

/// Replacing one slot changes the occupied and vacant counts pointwise.
proof fn lemma_counts_update<K, V>(s: Seq<Entry<K, V>>, i: int, e: Entry<K, V>)
    requires
        0 <= i < s.len(),
    ensures
        occ_count(s.update(i, e)) + (if s[i] is Occupied {
            1nat
        } else {
            0nat
        }) == occ_count(s) + (if e is Occupied {
            1nat
        } else {
            0nat
        }),
        vac_count(s.update(i, e)) + (if s[i] is Vacant {
            1nat
        } else {
            0nat
        }) == vac_count(s) + (if e is Vacant {
            1nat
        } else {
            0nat
        }),
    decreases s.len(),
{
    let t = s.update(i, e);
    if i == s.len() - 1 {
        assert(t.drop_last() =~= s.drop_last());
        assert(t.last() == e);
    } else {
        lemma_counts_update(s.drop_last(), i, e);
        assert(t.drop_last() =~= s.drop_last().update(i, e));
        assert(t.last() == s.last());
        assert(s.drop_last()[i] == s[i]);
    }
}

/// Replacing one slot keeps the keys distinct, provided the new slot either
/// keeps the old slot's key or brings a key held nowhere else.
proof fn lemma_distinct_update<K: View, V>(s: Seq<Entry<K, V>>, i: int, e: Entry<K, V>)
    requires
        0 <= i < s.len(),
        keys_distinct(s),
        e is Occupied ==> (s[i] is Occupied && entry_key_view(e) == entry_key_view(s[i])) || (
        forall|j: int| #![trigger s[j]] 0 <= j < s.len() && s[j] is Occupied ==> entry_key_view(s[j])
            != entry_key_view(e)),
    ensures
        keys_distinct(s.update(i, e)),
{
    let t = s.update(i, e);
    assert forall|a: int, b: int|
        0 <= a < t.len() && 0 <= b < t.len() && a != b && t[a] is Occupied
            && t[b] is Occupied implies entry_key_view(t[a]) != entry_key_view(t[b]) by {
        if a != i {
            assert(t[a] == s[a]);
        }
        if b != i {
            assert(t[b] == s[b]);
        }
    }
}

/// Replacing one slot by anything that is not vacant keeps every probe chain
/// clear; a newly occupied slot additionally needs its own chain clear.
proof fn lemma_probe_preserved<K: TableKey, V>(s: Seq<Entry<K, V>>, i: int, e: Entry<K, V>)
    requires
        0 <= i < s.len(),
        probe_clear(s),
        !(e is Vacant),
        e is Occupied ==> forall|j: int|
            #![trigger s[j]]
            0 <= j < s.len() && wrap_dist(
                start_of::<K>(entry_key_view(e), s.len() as int),
                j,
                s.len() as int,
            ) < wrap_dist(start_of::<K>(entry_key_view(e), s.len() as int), i, s.len() as int)
                ==> !(s[j] is Vacant),
    ensures
        probe_clear(s.update(i, e)),
{
    let t = s.update(i, e);
    let cap = s.len() as int;
    assert forall|a: int, b: int|
        0 <= a < t.len() && 0 <= b < t.len() && t[a] is Occupied && wrap_dist(
            start_of::<K>(entry_key_view(t[a]), t.len() as int),
            b,
            t.len() as int,
        ) < wrap_dist(
            start_of::<K>(entry_key_view(t[a]), t.len() as int),
            a,
            t.len() as int,
        ) implies !(t[b] is Vacant) by {
        if b == i {
            assert(t[b] == e);
        } else {
            assert(t[b] == s[b]);
            if a == i {
                assert(t[a] == e);
            } else {
                assert(t[a] == s[a]);
            }
        }
    }
}

/// Writing an entry with a fresh key into a slot that held no entry adds
/// exactly that binding to the mapping.
proof fn lemma_map_place<K: View, V>(s: Seq<Entry<K, V>>, i: int, e: Entry<K, V>)
    requires
        0 <= i < s.len(),
        !(s[i] is Occupied),
        e is Occupied,
        forall|j: int| #![trigger s[j]] 0 <= j < s.len() && s[j] is Occupied ==> entry_key_view(s[j])
            != entry_key_view(e),
    ensures
        entries_map(s.update(i, e)) == entries_map(s).insert(entry_key_view(e), entry_value(e)),
    decreases s.len(),
{
    let t = s.update(i, e);
    if i == s.len() - 1 {
        assert(t.drop_last() =~= s.drop_last());
        assert(t.last() == e);
        assert(s.last() == s[i]);
        assert(entries_map(t) =~= entries_map(s).insert(entry_key_view(e), entry_value(e)));
    } else {
        let p = s.drop_last();
        assert forall|j: int| 0 <= j < p.len() && p[j] is Occupied implies entry_key_view(p[j])
            != entry_key_view(e) by {
            assert(p[j] == s[j]);
        }
        assert(p[i] == s[i]);
        lemma_map_place(p, i, e);
        assert(t.drop_last() =~= p.update(i, e));
        assert(t.last() == s.last());
        assert(s[s.len() - 1] == s.last());
        assert(entries_map(t) =~= entries_map(s).insert(entry_key_view(e), entry_value(e)));
    }
}

/// Overwriting an occupied slot with an entry that carries the same key view
/// updates that key's binding in the mapping.
proof fn lemma_map_replace<K: View, V>(s: Seq<Entry<K, V>>, i: int, e: Entry<K, V>)
    requires
        0 <= i < s.len(),
        s[i] is Occupied,
        e is Occupied,
        entry_key_view(e) == entry_key_view(s[i]),
        keys_distinct(s),
    ensures
        entries_map(s.update(i, e)) == entries_map(s).insert(entry_key_view(e), entry_value(e)),
    decreases s.len(),
{
    let t = s.update(i, e);
    if i == s.len() - 1 {
        assert(t.drop_last() =~= s.drop_last());
        assert(t.last() == e);
        assert(s.last() == s[i]);
        assert(entries_map(t) =~= entries_map(s).insert(entry_key_view(e), entry_value(e)));
    } else {
        lemma_distinct_prefix(s);
        assert(s.drop_last()[i] == s[i]);
        lemma_map_replace(s.drop_last(), i, e);
        assert(t.drop_last() =~= s.drop_last().update(i, e));
        assert(t.last() == s.last());
        assert(s[s.len() - 1] == s.last());
        if s.last() is Occupied {
            assert(entry_key_view(s.last()) != entry_key_view(s[i]));
        }
        assert(entries_map(t) =~= entries_map(s).insert(entry_key_view(e), entry_value(e)));
    }
}

/// Overwriting an occupied slot's value, whatever the new value is, updates
/// that key's binding and leaves the table's shape untouched.
proof fn lemma_replace_value_keeps<K: TableKey, V>(s: Seq<Entry<K, V>>, i: int)
    requires
        0 <= i < s.len(),
        s[i] is Occupied,
        keys_distinct(s),
        probe_clear(s),
    ensures
        forall|e: Entry<K, V>|
            #![trigger s.update(i, e)]
            e is Occupied && entry_key_view(e) == entry_key_view(s[i]) ==> ({
                let t = s.update(i, e);
                &&& entries_map(t) == entries_map(s).insert(entry_key_view(s[i]), entry_value(e))
                &&& keys_distinct(t)
                &&& probe_clear(t)
                &&& occ_count(t) == occ_count(s)
                &&& vac_count(t) == vac_count(s)
            }),
{
    assert forall|e: Entry<K, V>|
        #![trigger s.update(i, e)]
        e is Occupied && entry_key_view(e) == entry_key_view(s[i]) implies ({
        let t = s.update(i, e);
        &&& entries_map(t) == entries_map(s).insert(entry_key_view(s[i]), entry_value(e))
        &&& keys_distinct(t)
        &&& probe_clear(t)
        &&& occ_count(t) == occ_count(s)
        &&& vac_count(t) == vac_count(s)
    }) by {
        lemma_map_replace(s, i, e);
        lemma_distinct_update(s, i, e);
        assert forall|j: int|
            0 <= j < s.len() && wrap_dist(
                start_of::<K>(entry_key_view(e), s.len() as int),
                j,
                s.len() as int,
            ) < wrap_dist(
                start_of::<K>(entry_key_view(e), s.len() as int),
                i,
                s.len() as int,
            ) implies !(s[j] is Vacant) by {
            assert(s[i] is Occupied);
        }
        lemma_probe_preserved(s, i, e);
        lemma_counts_update(s, i, e);
    }
}

/// Clearing an occupied slot removes exactly that key's binding from the
/// mapping.
proof fn lemma_map_clear<K: View, V>(s: Seq<Entry<K, V>>, i: int, e: Entry<K, V>)
    requires
        0 <= i < s.len(),
        s[i] is Occupied,
        !(e is Occupied),
        keys_distinct(s),
    ensures
        entries_map(s.update(i, e)) == entries_map(s).remove(entry_key_view(s[i])),
    decreases s.len(),
{
    let t = s.update(i, e);
    if i == s.len() - 1 {
        assert(t.drop_last() =~= s.drop_last());
        assert(t.last() == e);
        assert(s.last() == s[i]);
        let p = s.drop_last();
        assert forall|j: int| 0 <= j < p.len() && p[j] is Occupied implies entry_key_view(p[j])
            != entry_key_view(s[i]) by {
            assert(p[j] == s[j]);
        }
        lemma_map_absent(p, entry_key_view(s[i]));
        assert(entries_map(t) =~= entries_map(s).remove(entry_key_view(s[i])));
    } else {
        lemma_distinct_prefix(s);
        assert(s.drop_last()[i] == s[i]);
        lemma_map_clear(s.drop_last(), i, e);
        assert(t.drop_last() =~= s.drop_last().update(i, e));
        assert(t.last() == s.last());
        assert(s[s.len() - 1] == s.last());
        if s.last() is Occupied {
            assert(entry_key_view(s.last()) != entry_key_view(s[i]));
        }
        assert(entries_map(t) =~= entries_map(s).remove(entry_key_view(s[i])));
    }
}

} // verus!
