//! One shard of a map: a hash table that is told the hash of each key.
use crate::mapref::{MapRef, MapRefMut};
use crate::model::{
    distinct, lawful_key, lemma_lawful_pair, lemma_to_map_finite, lemma_to_map_holds,
    lemma_to_map_len, lemma_to_map_lookup, lemma_to_map_push, lemma_to_map_set,
    lemma_to_map_swap_remove, lemma_to_map_unique, lookup, put, stored_key, to_map, unique_keys,
    without,
};
use crate::table::{filed, made_for, SlotTable, MAX_CAPACITY, MAX_ENTRIES};
use vstd::multiset::Multiset;
use vstd::prelude::*;
use vstd::std_specs::cmp::PartialEqSpec;

verus! {

/// An entry of a shard, with the hash it is filed under.
struct Entry<K, V> {
    hash: u64,
    key: K,
    value: V,
}

impl<K: Eq, V> Entry<K, V> {
    /// Returns `true` if the entry is filed under `hash` and a key that equals
    /// `key`.
    fn is_for(&self, hash: u64, key: &K) -> (found: bool)
        ensures
            found ==> self.hash == hash,
            K::obeys_eq_spec() ==> found == (self.hash == hash && self.key.eq_spec(key)),
    {
        self.hash == hash && self.key == *key
    }
}

/// A hash table of entries, each filed under its hash and its key.
///
/// The entries stand in a row; the index finds the place of an entry in it.
pub struct Shard<K, V> {
    entries: Vec<Entry<K, V>>,
    index: SlotTable,
}

/// The keys, with their hashes, and the values of `entries`.
spec fn pairs<K, V>(entries: Seq<Entry<K, V>>) -> Seq<((u64, K), V)> {
    entries.map_values(|e: Entry<K, V>| ((e.hash, e.key), e.value))
}

/// Whether `slots` holds the place of each of `entries`, once, under its hash.
spec fn indexed<K, V>(slots: Multiset<(u64, usize)>, entries: Seq<Entry<K, V>>) -> bool {
    forall|p: (u64, usize)| #[trigger]
        slots.count(p) == if p.1 < entries.len() && entries[p.1 as int].hash == p.0 {
            1nat
        } else {
            0nat
        }
}

/// The index of a row of entries holds as many slots as there are entries.
proof fn lemma_indexed_len<K, V>(slots: Multiset<(u64, usize)>, entries: Seq<Entry<K, V>>)
    requires
        indexed(slots, entries),
        entries.len() <= usize::MAX,
    ensures
        slots.len() == entries.len(),
    decreases entries.len(),
{
    if entries.len() == 0 {
        assert(slots =~= Multiset::empty());
    } else {
        let last = (entries.last().hash, (entries.len() - 1) as usize);
        let rest = entries.drop_last();
        assert(slots.count(last) == 1);
        lemma_indexed_len(slots.remove(last), rest);
    }
}

impl<K, V> Shard<K, V> {
    /// The entries of the shard, in the order in which it hands them out. The
    /// key of an entry comes with its hash.
    pub closed spec fn entries(&self) -> Seq<((u64, K), V)> {
        pairs(self.entries@)
    }

    /// The number of entries that the shard was made to hold: what its index was
    /// made for. The row of entries behind the index is reserved only as far as
    /// memory allows.
    pub closed spec fn capacity(&self) -> nat {
        made_for(self.index)
    }
}

impl<K, V> View for Shard<K, V> {
    type V = Map<(u64, K), V>;

    /// The entries of the shard, by hash and key.
    open spec fn view(&self) -> Map<(u64, K), V> {
        to_map(self.entries())
    }
}

impl<K: PartialEq, V> Shard<K, V> {
    /// Whether the index agrees with the entries, and no two entries are filed
    /// under equal keys and one hash.
    pub closed spec fn wf(&self) -> bool {
        &&& indexed(filed(self.index), self.entries@)
        &&& lawful_key::<K>() ==> distinct(self.entries())
        &&& self.entries@.len() <= MAX_ENTRIES
    }

    /// What the index of a shard holds.
    proof fn lemma_index(&self)
        requires
            self.wf(),
        ensures
            self.entries().len() == self.entries@.len(),
            filed(self.index).len() == self.entries@.len(),
            forall|h: u64, s: usize| #[trigger]
                filed(self.index).contains((h, s)) <==> s < self.entries@.len()
                    && self.entries@[s as int].hash == h,
    {
        lemma_indexed_len(filed(self.index), self.entries@);
    }

    /// The entries of a shard have different keys, and are those that it holds.
    pub proof fn lemma_entries(&self)
        requires
            self.wf(),
        ensures
            self@.dom().finite(),
            lawful_key::<K>() ==> {
                &&& distinct(self.entries())
                &&& unique_keys(self@)
                &&& self@.len() == self.entries().len()
                &&& forall|i: int|
                    0 <= i < self.entries().len() ==> self@.contains_key(
                        (#[trigger] self.entries()[i]).0,
                    ) && self@[self.entries()[i].0] == self.entries()[i].1
            },
    {
        lemma_to_map_finite(self.entries());
        if lawful_key::<K>() {
            lemma_lawful_pair::<K>();
            lemma_to_map_unique(self.entries());
            lemma_to_map_len(self.entries());
            lemma_to_map_holds(self.entries());
        }
    }
}

impl<K: Eq, V> Shard<K, V> {
    /// Creates an empty shard made to hold `capacity` entries.
    pub fn with_capacity(capacity: usize) -> (shard: Self)
        requires
            capacity <= MAX_CAPACITY,
        ensures
            shard.wf(),
            shard@ == Map::<(u64, K), V>::empty(),
            shard.entries() == Seq::<((u64, K), V)>::empty(),
            shard.capacity() == capacity,
    {
        let mut entries: Vec<Entry<K, V>> = Vec::new();
        let _ = entries.try_reserve(capacity);
        let shard = Shard { entries, index: SlotTable::with_capacity(capacity) };
        assert(shard.entries() =~= Seq::empty());
        assert(shard@ =~= Map::empty());
        shard
    }

    /// Returns the place of the entry for `key` under `hash`.
    pub fn find(&self, hash: u64, key: &K) -> (found: Option<usize>)
        requires
            self.wf(),
        ensures
            found matches Some(place) ==> place < self.entries().len()
                && self.entries()[place as int].0.0 == hash,
            lawful_key::<K>() ==> match found {
                Some(place) => {
                    &&& self.entries()[place as int].0.1.eq_spec(key)
                    &&& stored_key(self@, (hash, *key)) == Some(self.entries()[place as int].0)
                    &&& lookup(self@, (hash, *key)) == Some(self.entries()[place as int].1)
                },
                None => stored_key(self@, (hash, *key)) is None,
            },
    {
        proof {
            self.lemma_index();
        }
        let entries = &self.entries;
        let eq = |s: &usize| -> (b: bool)
            requires
                *s < entries@.len(),
            ensures
                b ==> entries@[*s as int].hash == hash,
                K::obeys_eq_spec() ==> b == (entries@[*s as int].hash == hash
                    && entries@[*s as int].key.eq_spec(key)),
            { entries[*s].is_for(hash, key) };
        let found: Option<usize> = self.index.find(hash, eq);
        proof {
            if lawful_key::<K>() {
                lemma_lawful_pair::<K>();
                match found {
                    Some(s) => {
                        assert(call_ensures(eq, (&s,), true));
                        lemma_to_map_lookup(self.entries(), s as int, (hash, *key));
                    },
                    None => {
                        assert forall|k: (u64, K)| #[trigger]
                            self@.contains_key(k) implies !k.eq_spec(&(hash, *key)) by {
                            let i = choose|i: int|
                                0 <= i < self.entries().len() && (#[trigger] self.entries()[i]).0
                                    == k;
                            if k.0 == hash {
                                assert(filed(self.index).contains((hash, i as usize)));
                            }
                        }
                    },
                }
            }
        }
        found
    }

    /// Returns the key and the value of the entry in the given place.
    pub fn entry_at(&self, place: usize) -> (entry: (&K, &V))
        requires
            place < self.entries().len(),
        ensures
            *entry.0 == self.entries()[place as int].0.1,
            *entry.1 == self.entries()[place as int].1,
    {
        let e = &self.entries[place];
        (&e.key, &e.value)
    }

    /// Returns the key and the value of the entry in the given place, the value
    /// to be changed.
    pub fn entry_at_mut(&mut self, place: usize) -> (entry: (&K, &mut V))
        requires
            old(self).wf(),
            place < old(self).entries().len(),
        ensures
            *entry.0 == old(self).entries()[place as int].0.1,
            *entry.1 == old(self).entries()[place as int].1,
            final(self).wf(),
            final(self).capacity() == old(self).capacity(),
            final(self).entries() == old(self).entries().update(
                place as int,
                (old(self).entries()[place as int].0, *final(entry.1)),
            ),
            final(self)@.dom() == old(self)@.dom(),
            lawful_key::<K>() ==> final(self)@ == old(self)@.insert(
                old(self).entries()[place as int].0,
                *final(entry.1),
            ),
    {
        let ghost before = self.entries@;
        proof {
            assert forall|e: Entry<K, V>|
                e.hash == before[place as int].hash && e.key == before[place as int].key implies {
                let after = #[trigger] before.update(place as int, e);
                &&& indexed(filed(self.index), after)
                &&& pairs(after) == pairs(before).update(
                    place as int,
                    ((e.hash, e.key), e.value),
                )
                &&& to_map(pairs(after)).dom() == to_map(pairs(before)).dom()
                &&& lawful_key::<K>() ==> distinct(pairs(after)) && to_map(pairs(after)) == to_map(
                    pairs(before),
                ).insert((e.hash, e.key), e.value)
            } by {
                let after = before.update(place as int, e);
                let s = pairs(before);
                let t = pairs(after);
                assert(t =~= s.update(place as int, ((e.hash, e.key), e.value)));
                assert forall|k: (u64, K)|
                    to_map(s).contains_key(k) == to_map(t).contains_key(k) by {
                    if to_map(s).contains_key(k) {
                        let i = choose|i: int| 0 <= i < s.len() && (#[trigger] s[i]).0 == k;
                        assert(t[i].0 == k);
                    }
                    if to_map(t).contains_key(k) {
                        let i = choose|i: int| 0 <= i < t.len() && (#[trigger] t[i]).0 == k;
                        assert(s[i].0 == k);
                    }
                }
                assert(to_map(t).dom() =~= to_map(s).dom());
                if lawful_key::<K>() {
                    lemma_lawful_pair::<K>();
                    lemma_to_map_set(s, place as int, e.value);
                }
            }
        }
        let e = &mut self.entries[place];
        (&e.key, &mut e.value)
    }

    /// Files `key` and `value` under `hash`, in place of the entry filed there
    /// under an equal key. Returns the value of that entry.
    pub fn insert(&mut self, hash: u64, key: K, value: V) -> (replaced: Option<V>)
        requires
            old(self).wf(),
            old(self).entries().len() < MAX_ENTRIES,
        ensures
            final(self).wf(),
            final(self).capacity() == old(self).capacity(),
            match replaced {
                Some(v) => exists|i: int|
                    {
                        &&& 0 <= i < old(self).entries().len()
                        &&& (#[trigger] old(self).entries()[i]).0.0 == hash
                        &&& old(self).entries()[i].1 == v
                        &&& final(self).entries() == old(self).entries().update(
                            i,
                            old(self).entries().last(),
                        ).drop_last().push(((hash, key), value))
                    },
                None => final(self).entries() == old(self).entries().push(((hash, key), value)),
            },
            forall|p: (u64, K)| #[trigger]
                final(self)@.contains_key(p) ==> old(self)@.contains_key(p) || p == (hash, key),
            final(self)@.contains_key((hash, key)),
            final(self).entries().contains(((hash, key), value)),
            lawful_key::<K>() ==> {
                &&& final(self)@ == put(old(self)@, (hash, key), value)
                &&& replaced == lookup(old(self)@, (hash, key))
            },
    {
        // With the space at hand, the row and the index grow together.
        self.entries.reserve(1);
        let replaced = self.remove(hash, &key);
        let ghost before = self.entries();
        let ghost added = ((hash, key), value);
        proof {
            self.lemma_index();
        }
        let slot: usize = self.entries.len();
        let entries = &self.entries;
        let hasher = |s: &usize| -> (h: u64)
            requires
                *s < entries@.len(),
            ensures
                h == entries@[*s as int].hash,
            { entries[*s].hash };
        self.index.enter(hash, slot, hasher);
        self.entries.push(Entry { hash, key, value });
        proof {
            assert(self.entries() =~= before.push(added));
            assert(self.entries()[slot as int] == added);
            assert forall|p: (u64, K)| #[trigger] self@.contains_key(p) implies old(
                self,
            )@.contains_key(p) || p == added.0 by {
                let i = choose|i: int|
                    0 <= i < self.entries().len() && (#[trigger] self.entries()[i]).0 == p;
                if i < before.len() {
                    assert(before[i].0 == p);
                    assert(to_map(before).contains_key(p));
                }
            }
            if lawful_key::<K>() {
                lemma_lawful_pair::<K>();
                lemma_to_map_holds(before);
                assert forall|i: int| 0 <= i < before.len() implies !(
                #[trigger] before[i]).0.eq_spec(&added.0) by {
                    assert(without(old(self)@, added.0).contains_key(before[i].0));
                }
                lemma_to_map_push(before, added.0, value);
                assert(put(to_map(before), added.0, value) =~= put(old(self)@, added.0, value));
            }
        }
        replaced
    }

    /// Returns a reference to the entry for `key` under `hash`.
    pub fn get(&self, hash: u64, key: &K) -> (entry: Option<MapRef<'_, K, V>>)
        requires
            self.wf(),
        ensures
            entry matches Some(e) ==> self.entries().contains(((hash, *e.key), *e.value)),
            lawful_key::<K>() ==> match entry {
                Some(e) => {
                    &&& stored_key(self@, (hash, *key)) == Some((hash, *e.key))
                    &&& lookup(self@, (hash, *key)) == Some(*e.value)
                },
                None => stored_key(self@, (hash, *key)) is None,
            },
    {
        match self.find(hash, key) {
            Some(place) => {
                let (key, value) = self.entry_at(place);
                assert(self.entries()[place as int] == ((hash, *key), *value));
                Some(MapRef { key, value })
            },
            None => None,
        }
    }

    /// Returns a mutable reference to the entry for `key` under `hash`.
    pub fn get_mut(&mut self, hash: u64, key: &K) -> (entry: Option<MapRefMut<'_, K, V>>)
        requires
            old(self).wf(),
        ensures
            final(self).wf(),
            final(self).capacity() == old(self).capacity(),
            match entry {
                Some(e) => exists|i: int|
                    {
                        &&& 0 <= i < old(self).entries().len()
                        &&& #[trigger] old(self).entries()[i] == ((hash, *e.key), *e.value)
                        &&& final(self).entries() == old(self).entries().update(
                            i,
                            ((hash, *e.key), *final(e.value)),
                        )
                    },
                None => final(self).entries() == old(self).entries(),
            },
            final(self)@.dom() == old(self)@.dom(),
            lawful_key::<K>() ==> match entry {
                Some(e) => {
                    &&& stored_key(old(self)@, (hash, *key)) == Some((hash, *e.key))
                    &&& lookup(old(self)@, (hash, *key)) == Some(*e.value)
                    &&& final(self)@ == old(self)@.insert((hash, *e.key), *final(e.value))
                },
                None => {
                    &&& stored_key(old(self)@, (hash, *key)) is None
                    &&& final(self)@ == old(self)@
                },
            },
    {
        match self.find(hash, key) {
            Some(place) => {
                let ghost at = self.entries()[place as int];
                let (key, value) = self.entry_at_mut(place);
                assert(at == ((hash, *key), *value));
                Some(MapRefMut { key, value })
            },
            None => None,
        }
    }

    /// Returns `true` if the shard holds an entry for `key` under `hash`.
    pub fn contains_key(&self, hash: u64, key: &K) -> (found: bool)
        requires
            self.wf(),
        ensures
            found ==> exists|i: int|
                0 <= i < self.entries().len() && (#[trigger] self.entries()[i]).0.0 == hash,
            lawful_key::<K>() ==> found == stored_key(self@, (hash, *key)) is Some,
    {
        match self.find(hash, key) {
            Some(place) => {
                assert(self.entries()[place as int].0.0 == hash);
                true
            },
            None => false,
        }
    }

    /// Returns the number of entries in the shard.
    pub fn len(&self) -> (len: usize)
        requires
            self.wf(),
        ensures
            len == self.entries().len(),
            lawful_key::<K>() ==> len == self@.len(),
    {
        proof {
            self.lemma_entries();
        }
        self.entries.len()
    }

    /// Returns `true` if the shard holds no entry.
    pub fn is_empty(&self) -> (empty: bool)
        requires
            self.wf(),
        ensures
            empty == (self.entries().len() == 0),
            empty == (self@ == Map::<(u64, K), V>::empty()),
    {
        proof {
            if self.entries().len() == 0 {
                assert(self@ =~= Map::empty());
            } else {
                assert(self@.contains_key(self.entries()[0].0));
            }
        }
        self.len() == 0
    }

    /// Takes out every entry.
    pub fn clear(&mut self)
        ensures
            final(self).wf(),
            final(self)@ == Map::<(u64, K), V>::empty(),
            final(self).entries() == Seq::<((u64, K), V)>::empty(),
            final(self).capacity() == old(self).capacity(),
    {
        // The index forgets the entries before they are dropped.
        self.index.clear();
        self.entries.clear();
        assert(self.entries() =~= Seq::empty());
        assert(self@ =~= Map::empty());
    }

    /// Files the entry in the place `from` as one in the place `to`, which the
    /// index does not know.
    fn refile(index: &mut SlotTable, entries: &Vec<Entry<K, V>>, from: usize, to: usize)
        requires
            from != to,
            to < entries@.len(),
            from < entries@.len() <= MAX_ENTRIES,
            indexed(filed(*old(index)).insert((entries@[to as int].hash, to)), entries@),
        ensures
            made_for(*final(index)) == made_for(*old(index)),
            filed(*final(index)) == filed(*old(index)).remove(
                (entries@[from as int].hash, from),
            ).insert((entries@[from as int].hash, to)),
    {
        let hash: u64 = entries[from].hash;
        let ghost slots = filed(*index);
        proof {
            let all = slots.insert((entries@[to as int].hash, to));
            lemma_indexed_len(all, entries@);
            assert forall|h: u64, t: usize| #[trigger] slots.contains((h, t)) implies t
                < entries@.len() && entries@[t as int].hash == h && t != to by {
                assert(all.count((h, t)) > 0);
            }
            assert(all.count((hash, from)) == 1);
            assert(slots.contains((hash, from)));
        }
        let is_from = |t: &usize| -> (b: bool)
            ensures
                b == (*t == from),
            { *t == from };
        let removed: Option<usize> = index.remove(hash, is_from);
        assert(removed is Some);
        assert forall|h: u64, t: usize| #[trigger] filed(*index).contains((h, t)) implies
            slots.contains((h, t)) by {}
        let hasher = |t: &usize| -> (h: u64)
            requires
                *t < entries@.len(),
            ensures
                h == entries@[*t as int].hash,
            { entries[*t].hash };
        index.enter(hash, to, hasher);
    }

    /// Takes out the entry for `key` under `hash` and returns its value.
    pub fn remove(&mut self, hash: u64, key: &K) -> (removed: Option<V>)
        requires
            old(self).wf(),
        ensures
            final(self).wf(),
            final(self).capacity() == old(self).capacity(),
            match removed {
                Some(v) => exists|i: int|
                    {
                        &&& 0 <= i < old(self).entries().len()
                        &&& (#[trigger] old(self).entries()[i]).0.0 == hash
                        &&& old(self).entries()[i].1 == v
                        &&& final(self).entries() == old(self).entries().update(
                            i,
                            old(self).entries().last(),
                        ).drop_last()
                    },
                None => final(self).entries() == old(self).entries(),
            },
            forall|p: (u64, K)| #[trigger]
                final(self)@.contains_key(p) ==> old(self)@.contains_key(p),
            lawful_key::<K>() ==> {
                &&& final(self)@ == without(old(self)@, (hash, *key))
                &&& removed == lookup(old(self)@, (hash, *key))
            },
    {
        proof {
            self.lemma_index();
        }
        let entries = &self.entries;
        let eq = |s: &usize| -> (b: bool)
            requires
                *s < entries@.len(),
            ensures
                b ==> entries@[*s as int].hash == hash,
                K::obeys_eq_spec() ==> b == (entries@[*s as int].hash == hash
                    && entries@[*s as int].key.eq_spec(key)),
            { entries[*s].is_for(hash, key) };
        let ghost before = self.entries();
        let ghost slots = filed(self.index);
        match self.index.remove(hash, eq) {
            Some(s) => {
                proof {
                    assert(call_ensures(eq, (&s,), true));
                    let h = choose|h: u64| #[trigger]
                        slots.contains((h, s)) && filed(self.index) == slots.remove((h, s));
                    assert(slots.contains((h, s)) && h == hash);
                }
                let last: usize = self.entries.len() - 1;
                if s < last {
                    Self::refile(&mut self.index, &self.entries, last, s);
                }
                let removed = self.entries.swap_remove(s);
                proof {
                    assert(before[s as int].1 == removed.value);
                    assert(self.entries() =~= before.update(s as int, before.last()).drop_last());
                    assert forall|p: (u64, K)| #[trigger]
                        self@.contains_key(p) implies old(self)@.contains_key(p) by {
                        let i = choose|i: int|
                            0 <= i < self.entries().len() && (#[trigger] self.entries()[i]).0 == p;
                        assert(before[if i == s { last as int } else { i }].0 == p);
                    }
                    if lawful_key::<K>() {
                        lemma_lawful_pair::<K>();
                        lemma_to_map_lookup(before, s as int, (hash, *key));
                        lemma_to_map_swap_remove(before, s as int, (hash, *key));
                    }
                }
                Some(removed.value)
            },
            None => {
                proof {
                    if lawful_key::<K>() {
                        assert forall|k: (u64, K)| #[trigger]
                            old(self)@.contains_key(k) implies !k.eq_spec(&(hash, *key)) by {
                            let i = choose|i: int|
                                0 <= i < before.len() && (#[trigger] before[i]).0 == k;
                            if k.0 == hash {
                                assert(slots.contains((hash, i as usize)));
                            }
                        }
                        assert(without(old(self)@, (hash, *key)) =~= old(self)@);
                    }
                }
                None
            },
        }
    }

    /// Returns the keys of the shard, and their values, to be changed.
    pub fn iter_mut(&mut self) -> (items: Vec<(&K, &mut V)>)
        requires
            old(self).wf(),
        ensures
            final(self).wf(),
            final(self).capacity() == old(self).capacity(),
            items@.len() == old(self).entries().len(),
            final(self).entries().len() == old(self).entries().len(),
            forall|i: int|
                #![trigger items@[i]]
                #![trigger final(self).entries()[i]]
                0 <= i < items@.len() ==> {
                    &&& *items@[i].0 == old(self).entries()[i].0.1
                    &&& *items@[i].1 == old(self).entries()[i].1
                    &&& final(self).entries()[i] == (
                        old(self).entries()[i].0,
                        *final(items@[i].1),
                    )
                },
    {
        let ghost before = self.entries@;
        proof {
            assert forall|after: Seq<Entry<K, V>>|
                #![trigger pairs(after)]
                after.len() == before.len() && (forall|i: int|
                    0 <= i < after.len() ==> (#[trigger] after[i]).hash == before[i].hash
                        && after[i].key == before[i].key) implies indexed(
                filed(self.index),
                after,
            ) && (lawful_key::<K>() ==> distinct(pairs(after))) by {
                if lawful_key::<K>() {
                    assert forall|i: int, j: int| 0 <= i < j < after.len() implies !(
                    #[trigger] pairs(after)[i]).0.eq_spec(&(#[trigger] pairs(after)[j]).0) by {
                        assert(!pairs(before)[i].0.eq_spec(&pairs(before)[j].0));
                    }
                }
            }
        }
        refs_mut(self.entries.as_mut_slice())
    }
}

/// Returns the keys of `entries`, and their values, to be changed.
fn refs_mut<'a, K, V>(entries: &'a mut [Entry<K, V>]) -> (items: Vec<(&'a K, &'a mut V)>)
    ensures
        items@.len() == old(entries)@.len(),
        final(entries)@.len() == old(entries)@.len(),
        forall|i: int|
            #![trigger items@[i]]
            #![trigger final(entries)@[i]]
            0 <= i < items@.len() ==> {
                &&& *items@[i].0 == old(entries)@[i].key
                &&& *items@[i].1 == old(entries)@[i].value
                &&& final(entries)@[i] == (Entry {
                    value: *final(items@[i].1),
                    ..old(entries)@[i]
                })
            },
{
    let mut items: Vec<(&'a K, &'a mut V)> = Vec::new();
    let ghost all = entries@;
    let ghost end = final(entries)@;
    let len: usize = entries.len();
    let mut rest = entries;
    while items.len() < len
        invariant
            all.len() == len,
            items@.len() <= len,
            rest@ == all.skip(items@.len() as int),
            end.len() == items@.len() + final(rest)@.len(),
            forall|i: int|
                0 <= i < final(rest)@.len() ==> #[trigger] final(rest)@[i] == end[items@.len() + i],
            forall|i: int|
                0 <= i < items@.len() ==> {
                    &&& *(#[trigger] items@[i]).0 == all[i].key
                    &&& *items@[i].1 == all[i].value
                    &&& end[i] == (Entry { value: *final(items@[i].1), ..all[i] })
                },
        decreases len - items@.len(),
    {
        let ghost at = items@.len() as int;
        let ghost before = final(rest)@;
        let (head, tail) = rest.split_at_mut(1);
        assert(before == final(head)@ + final(tail)@);
        match head.first_mut() {
            Some(e) => {
                items.push((&e.key, &mut e.value));
            },
            None => {},
        }
        rest = tail;
        assert(before[0] == end[at]);
        assert forall|i: int| 0 <= i < final(rest)@.len() implies #[trigger] final(rest)@[i]
            == end[items@.len() + i] by {
            assert(before[1 + i] == end[at + (1 + i)]);
        }
    }
    items
}

} // verus!
