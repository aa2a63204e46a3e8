//! A hash map split into shards.
use crate::hashing::{hash_key, hashes_alike, hashes_to, random_state};
use crate::keyed::{
    by_key, filed_by, lemma_by_key, lemma_by_key_insert, lemma_by_key_put, lemma_by_key_without,
};
use crate::layout::{calculate_shard_count, lemma_pow2_half, suits_parallelism, ShardLayout};
use crate::mapref::{MapRef, MapRefMut};
use crate::model::{
    distinct, lawful_key, lemma_lawful_pair, lemma_to_map_holds, lemma_to_map_len,
    lemma_to_map_unique, lookup, put, stored_key, to_map, unique_keys, without,
};
use crate::shard::Shard;
use crate::sharding::{
    all_entries, filed_with, joined, lemma_count, lemma_filed,
    lemma_joined_lookup, lemma_joined_put, lemma_joined_without, lemma_part, lemma_prefix,
    lemma_set_shard, lemma_step, lemma_values_change, lemma_walk, next_shard, only_shard_changes,
    only_values_change, route, routed, shard_refs_mut, views,
};
use crate::shard_read::{clones_of, key_clones_of, value_clones_of, ShardRead};
use crate::table::{MAX_CAPACITY, MAX_ENTRIES};
use crate::walks::{law_entries, law_keys, law_places, law_values};
use std::hash::{BuildHasher, Hash, RandomState};
use vstd::arithmetic::power2::is_pow2;
use vstd::prelude::*;
use vstd::std_specs::hash::obeys_key_model;

verus! {

/// A hash map split into shards.
///
/// The hash of a key tells which shard its entry is in.
pub struct ShardMap<K, V, S = RandomState> {
    shards: Vec<Shard<K, V>>,
    layout: ShardLayout,
    hasher: S,
}

impl<K, V, S> ShardMap<K, V, S> {
    /// The hasher of the map.
    pub closed spec fn hasher(&self) -> S {
        self.hasher
    }

    /// The shards of the map.
    pub closed spec fn shards(&self) -> Seq<Shard<K, V>> {
        self.shards@
    }

    /// The number of entries in the map.
    pub open spec fn count(&self) -> nat {
        all_entries(self.shards()).len()
    }

    /// The entries of the map, by key.
    pub open spec fn contents(&self) -> Map<K, V> {
        by_key(self@)
    }

    /// Whether there is room for one more entry, whatever shard it goes to: each
    /// shard has room for it, and the entries can be counted. Where the map has
    /// fewer entries than a single shard can take, this is so.
    pub open spec fn has_room(&self) -> bool {
        ||| self.count() < MAX_ENTRIES
        ||| {
            &&& self.count() < usize::MAX
            &&& forall|i: int|
                0 <= i < self.shards().len() ==> (#[trigger] self.shards()[i]).entries().len()
                    < MAX_ENTRIES
        }
    }

    /// Whether each shard was made to hold its part of `cap` entries, rounded up:
    /// what its index was made for. The row of entries behind the index is reserved
    /// only as far as memory allows.
    pub open spec fn made_to_hold(&self, cap: int) -> bool {
        forall|i: int|
            0 <= i < self.shards().len() ==> (#[trigger] self.shards()[i]).capacity() == (cap
                + self.shards().len() - 1) / (self.shards().len() as int)
    }
}

/// Whether `shards` shards can be made to hold `cap` entries: the capacity can be
/// split, and each part is small enough for a shard.
pub open spec fn capacity_fits(cap: int, shards: int) -> bool {
    &&& cap == 0 || cap + shards - 1 <= usize::MAX
    &&& (cap + shards - 1) / shards <= MAX_CAPACITY
}

/// Whether the shards of a map on a machine that runs `parallelism` threads at a
/// time can be made to hold `cap` entries. Four shards can hold four times what one
/// can, and there are no fewer; more shards can hold more.
pub open spec fn capacity_suits(cap: int, parallelism: Option<usize>) -> bool {
    ||| cap <= 4 * MAX_CAPACITY
    ||| forall|shards: int| #[trigger]
        suits_parallelism(shards, parallelism) ==> capacity_fits(cap, shards)
}

impl<K, V, S> View for ShardMap<K, V, S> {
    type V = Map<(u64, K), V>;

    /// The entries of the map, by hash and key.
    open spec fn view(&self) -> Map<(u64, K), V> {
        joined(views(self.shards()))
    }
}

/// The capacity of a shard, where the map is made to hold `cap` entries, is small
/// enough.
proof fn lemma_shard_capacity(cap: int, shards: int)
    requires
        shards > 1,
        0 <= cap <= 4 * MAX_CAPACITY,
        cap <= 4 || shards >= 4,
    ensures
        0 <= (cap + shards - 1) / shards <= MAX_CAPACITY,
{
    assert((cap + shards - 1) / shards <= MAX_CAPACITY) by (nonlinear_arith)
        requires
            shards > 1,
            0 <= cap <= 4 * MAX_CAPACITY,
            cap <= 4 || shards >= 4,
            MAX_CAPACITY >= 4,
    ;
    assert(0 <= (cap + shards - 1) / shards) by (nonlinear_arith)
        requires
            shards > 1,
            0 <= cap,
    ;
}

/// Where only values change, the entries met on a walk are those under their keys
/// alone.
proof fn lemma_by_key_walk<K: Eq + Hash, V, S: BuildHasher>(
    hasher: S,
    before: Seq<Shard<K, V>>,
    after: Seq<Shard<K, V>>,
)
    requires
        lawful_key::<K>(),
        hashes_alike::<K, S>(hasher),
        filed_by(hasher, joined(views(before))),
        routed(views(after)),
        joined(views(after)).dom() == joined(views(before)).dom(),
        forall|j: int| 0 <= j < after.len() ==> (#[trigger] after[j]).wf(),
    ensures
        by_key(joined(views(after))).dom() == by_key(joined(views(before))).dom(),
        forall|i: int|
            0 <= i < all_entries(after).len() ==> by_key(
                joined(views(after)),
            )[(#[trigger] all_entries(after)[i]).0.1] == all_entries(after)[i].1,
{
    let all = all_entries(after);
    let m = joined(views(after));
    let b = joined(views(before));
    assert forall|p: (u64, K)| m.contains_key(p) == b.contains_key(p) by {
        assert(m.dom().contains(p) == b.dom().contains(p));
    }
    assert(by_key(m).dom() =~= by_key(b).dom());
    lemma_lawful_pair::<K>();
    lemma_walk(after);
    lemma_to_map_unique(all);
    lemma_to_map_holds(all);
    lemma_by_key(hasher, m);
}

impl<K: Eq + Hash, V> ShardMap<K, V, RandomState> {
    /// Creates a map with a random hasher, for a machine that runs `parallelism`
    /// threads at a time.
    pub fn new(parallelism: Option<usize>) -> (map: Self)
        requires
            parallelism matches Some(p) ==> 1 <= p <= usize::MAX / 8 + 1,
        ensures
            map.wf(),
            map.hashed(),
            obeys_key_model::<K>() && lawful_key::<K>() ==> map.consistent(),
            map.count() == 0,
            map@ == Map::<(u64, K), V>::empty(),
            map.contents() == Map::<K, V>::empty(),
            suits_parallelism(map.shards().len() as int, parallelism),
            parallelism matches Some(p) ==> 4 * p <= map.shards().len() < 8 * p,
            parallelism is None ==> map.shards().len() == 4,
            map.made_to_hold(4),
    {
        Self::with_shards(calculate_shard_count(parallelism))
    }

    /// Creates a map with a random hasher and `shards` shards.
    pub fn with_shards(shards: usize) -> (map: Self)
        requires
            shards > 1,
            is_pow2(shards as int),
        ensures
            map.wf(),
            map.hashed(),
            obeys_key_model::<K>() && lawful_key::<K>() ==> map.consistent(),
            map.count() == 0,
            map@ == Map::<(u64, K), V>::empty(),
            map.contents() == Map::<K, V>::empty(),
            map.shards().len() == shards,
            map.made_to_hold(4),
    {
        Self::with_shards_and_hasher(shards, random_state::<K>())
    }

    /// Creates a map with a random hasher, made to hold `capacity` entries, for a
    /// machine that runs `parallelism` threads at a time.
    pub fn with_capacity(parallelism: Option<usize>, capacity: usize) -> (map: Self)
        requires
            parallelism matches Some(p) ==> 1 <= p <= usize::MAX / 8 + 1,
            capacity_suits(capacity as int, parallelism),
        ensures
            map.wf(),
            map.hashed(),
            obeys_key_model::<K>() && lawful_key::<K>() ==> map.consistent(),
            map.count() == 0,
            map@ == Map::<(u64, K), V>::empty(),
            map.contents() == Map::<K, V>::empty(),
            suits_parallelism(map.shards().len() as int, parallelism),
            parallelism matches Some(p) ==> 4 * p <= map.shards().len() < 8 * p,
            parallelism is None ==> map.shards().len() == 4,
            map.made_to_hold(capacity as int),
    {
        Self::with_capacity_and_hasher(parallelism, capacity, random_state::<K>())
    }

    /// Creates a map with a random hasher and `shards` shards, made to hold `cap`
    /// entries.
    pub fn with_shards_and_capacity(shards: usize, cap: usize) -> (map: Self)
        requires
            shards > 1,
            is_pow2(shards as int),
            capacity_fits(cap as int, shards as int),
        ensures
            map.wf(),
            map.hashed(),
            obeys_key_model::<K>() && lawful_key::<K>() ==> map.consistent(),
            map.count() == 0,
            map@ == Map::<(u64, K), V>::empty(),
            map.contents() == Map::<K, V>::empty(),
            map.shards().len() == shards,
            map.made_to_hold(cap as int),
    {
        Self::with_shards_and_capacity_and_hasher(shards, cap, random_state::<K>())
    }
}

impl<K: Eq + Hash, V, S: BuildHasher> ShardMap<K, V, S> {
    /// Whether the number of shards is a power of two greater than one, each
    /// entry is in the shard of its hash, and the entries can be counted.
    pub closed spec fn wf(&self) -> bool {
        &&& self.layout.wf()
        &&& self.layout.shards() == self.shards@.len()
        &&& forall|i: int| 0 <= i < self.shards@.len() ==> (#[trigger] self.shards@[i]).wf()
        &&& routed(views(self.shards@))
        &&& self.count() <= usize::MAX
    }

    /// Whether each entry is filed under a hash that the hasher gives its key.
    pub open spec fn hashed(&self) -> bool {
        filed_by(self.hasher(), self@)
    }

    /// Whether `==` is an equivalence on keys, the hasher gives equal keys one
    /// hash, and each entry is filed under the hash of its key. Then the map is a
    /// map from keys to values.
    pub open spec fn consistent(&self) -> bool {
        &&& lawful_key::<K>()
        &&& hashes_alike::<K, S>(self.hasher())
        &&& self.hashed()
    }

    /// Creates a map with the hasher `hasher` and `shards` shards, made to hold
    /// `cap` entries.
    pub fn with_shards_and_capacity_and_hasher(shards: usize, cap: usize, hasher: S) -> (map: Self)
        requires
            shards > 1,
            is_pow2(shards as int),
            capacity_fits(cap as int, shards as int),
        ensures
            map.wf(),
            map.hashed(),
            map.count() == 0,
            map@ == Map::<(u64, K), V>::empty(),
            map.contents() == Map::<K, V>::empty(),
            map.hasher() == hasher,
            map.shards().len() == shards,
            map.made_to_hold(cap as int),
    {
        let layout = ShardLayout::new(shards);
        let shard_capacity: usize = layout.shard_capacity(cap);
        let mut list: Vec<Shard<K, V>> = Vec::new();
        while list.len() < shards
            invariant
                list@.len() <= shards,
                shard_capacity <= MAX_CAPACITY,
                all_entries(list@).len() == 0,
                forall|i: int|
                    0 <= i < list@.len() ==> {
                        &&& (#[trigger] list@[i]).wf()
                        &&& list@[i]@ == Map::<(u64, K), V>::empty()
                        &&& list@[i].capacity() == shard_capacity
                    },
            decreases shards - list@.len(),
        {
            let ghost before = list@;
            list.push(Shard::with_capacity(shard_capacity));
            assert(list@.drop_last() =~= before);
        }
        let map = ShardMap { shards: list, layout, hasher };
        assert(map@ =~= Map::empty());
        assert(map.contents() =~= Map::empty());
        map
    }

    /// Creates a map with the hasher `hasher` and `shards` shards.
    pub fn with_shards_and_hasher(shards: usize, hasher: S) -> (map: Self)
        requires
            shards > 1,
            is_pow2(shards as int),
        ensures
            map.wf(),
            map.hashed(),
            map.count() == 0,
            map@ == Map::<(u64, K), V>::empty(),
            map.contents() == Map::<K, V>::empty(),
            map.hasher() == hasher,
            map.shards().len() == shards,
            map.made_to_hold(4),
    {
        proof {
            lemma_pow2_half(shards as int);
            lemma_shard_capacity(4, shards as int);
        }
        Self::with_shards_and_capacity_and_hasher(shards, 4, hasher)
    }

    /// Creates a map with the hasher `hasher`, made to hold `cap` entries, for a
    /// machine that runs `parallelism` threads at a time.
    pub fn with_capacity_and_hasher(parallelism: Option<usize>, cap: usize, hasher: S) -> (map:
        Self)
        requires
            parallelism matches Some(p) ==> 1 <= p <= usize::MAX / 8 + 1,
            capacity_suits(cap as int, parallelism),
        ensures
            map.wf(),
            map.hashed(),
            map.count() == 0,
            map@ == Map::<(u64, K), V>::empty(),
            map.contents() == Map::<K, V>::empty(),
            map.hasher() == hasher,
            suits_parallelism(map.shards().len() as int, parallelism),
            parallelism matches Some(p) ==> 4 * p <= map.shards().len() < 8 * p,
            parallelism is None ==> map.shards().len() == 4,
            map.made_to_hold(cap as int),
    {
        let shards: usize = calculate_shard_count(parallelism);
        proof {
            if cap <= 4 * MAX_CAPACITY {
                lemma_pow2_half(shards as int);
                lemma_shard_capacity(cap as int, shards as int);
            }
        }
        Self::with_shards_and_capacity_and_hasher(shards, cap, hasher)
    }

    /// Creates a map with the hasher `hasher`, for a machine that runs
    /// `parallelism` threads at a time.
    pub fn with_hasher(parallelism: Option<usize>, hasher: S) -> (map: Self)
        requires
            parallelism matches Some(p) ==> 1 <= p <= usize::MAX / 8 + 1,
        ensures
            map.wf(),
            map.hashed(),
            map.count() == 0,
            map@ == Map::<(u64, K), V>::empty(),
            map.contents() == Map::<K, V>::empty(),
            map.hasher() == hasher,
            suits_parallelism(map.shards().len() as int, parallelism),
            parallelism matches Some(p) ==> 4 * p <= map.shards().len() < 8 * p,
            parallelism is None ==> map.shards().len() == 4,
            map.made_to_hold(4),
    {
        Self::with_shards_and_hasher(calculate_shard_count(parallelism), hasher)
    }

    /// The number of shards of a map is a power of two greater than one. Each shard
    /// is well formed, and holds the entries whose hashes go to it.
    pub proof fn lemma_routed(&self)
        requires
            self.wf(),
        ensures
            self.shards().len() > 1,
            is_pow2(self.shards().len() as int),
            forall|i: int| 0 <= i < self.shards().len() ==> (#[trigger] self.shards()[i]).wf(),
            routed(views(self.shards())),
    {
        self.layout.lemma_in_range(0);
    }

    /// A key is looked up in the shard of its hash.
    pub(crate) proof fn lemma_shard_of(&self, key: (u64, K))
        requires
            self.wf(),
            lawful_key::<K>(),
        ensures
            0 <= route(key.0, self.shards().len() as int) < self.shards().len(),
            ({
                let s = self.shards()[route(key.0, self.shards().len() as int)];
                &&& stored_key(self@, key) == stored_key(s@, key)
                &&& lookup(self@, key) == lookup(s@, key)
            }),
    {
        self.layout.lemma_in_range(key.0 as usize);
        self.lemma_lookup(key);
    }

    /// The entries of a map have different keys under one hash, and are looked up
    /// in the shard of their hash.
    proof fn lemma_lookup(&self, key: (u64, K))
        requires
            self.wf(),
            0 <= route(key.0, self.shards().len() as int) < self.shards().len(),
        ensures
            lawful_key::<K>() ==> {
                let s = self.shards()[route(key.0, self.shards().len() as int)];
                &&& unique_keys(self@)
                &&& stored_key(self@, key) == stored_key(s@, key)
                &&& lookup(self@, key) == lookup(s@, key)
            },
    {
        if lawful_key::<K>() {
            let maps = views(self.shards());
            assert forall|i: int| 0 <= i < maps.len() implies unique_keys(#[trigger] maps[i]) by {
                self.shards@[i].lemma_entries();
            }
            lemma_joined_lookup(maps, key);
        }
    }

    /// Walking over a map, shard by shard, meets each of its entries once.
    pub proof fn lemma_entries(&self)
        requires
            self.wf(),
            lawful_key::<K>(),
        ensures
            distinct(all_entries(self.shards())),
            to_map(all_entries(self.shards())) == self@,
            unique_keys(self@),
            self@.dom().finite(),
            self@.len() == self.count(),
    {
        lemma_lawful_pair::<K>();
        lemma_walk(self.shards@);
        lemma_to_map_len(all_entries(self.shards@));
        lemma_to_map_unique(all_entries(self.shards@));
    }

    /// Changing the values of a shard changes them in the map.
    proof fn lemma_change_values(&self, i: int)
        requires
            self.wf(),
            0 <= i < self.shards().len(),
        ensures
            forall|s: Shard<K, V>|
                s@.dom() == self.shards()[i]@.dom() ==> {
                    let after = #[trigger] self.shards().update(i, s);
                    &&& routed(views(after))
                    &&& all_entries(after).len() == self.count() - self.shards()[i].entries().len()
                        + s.entries().len()
                    &&& joined(views(after)).dom() == self@.dom()
                    &&& s@ == self.shards()[i]@ ==> joined(views(after)) == self@
                    &&& forall|p: (u64, K), v: V|
                        self.shards()[i]@.contains_key(p) && s@ == #[trigger]
                            self.shards()[i]@.insert(p, v) ==> joined(views(after)) == self@.insert(
                            p,
                            v,
                        )
                },
    {
        let before = self.shards@;
        assert forall|s: Shard<K, V>| s@.dom() == before[i]@.dom() implies {
            let after = #[trigger] before.update(i, s);
            &&& routed(views(after))
            &&& all_entries(after).len() == self.count() - before[i].entries().len()
                + s.entries().len()
            &&& joined(views(after)).dom() == self@.dom()
            &&& s@ == before[i]@ ==> joined(views(after)) == self@
            &&& forall|p: (u64, K), v: V|
                before[i]@.contains_key(p) && s@ == #[trigger] before[i]@.insert(p, v) ==> joined(
                    views(after),
                ) == self@.insert(p, v)
        } by {
            let after = before.update(i, s);
            assert forall|p: (u64, K)| #[trigger] s@.contains_key(p) implies route(
                p.0,
                before.len() as int,
            ) == i by {
                assert(s@.dom().contains(p));
                assert(views(before)[i].contains_key(p));
            }
            lemma_set_shard(before, i, s);
            assert forall|p: (u64, K)| joined(views(after)).contains_key(p) == self@.contains_key(
                p,
            ) by {
                assert(s@.dom().contains(p) == before[i]@.dom().contains(p));
            }
            assert(joined(views(after)).dom() =~= self@.dom());
            if s@ == before[i]@ {
                assert(joined(views(after)) =~= self@);
            }
            assert forall|p: (u64, K), v: V|
                before[i]@.contains_key(p) && s@ == #[trigger] before[i]@.insert(
                    p,
                    v,
                ) implies joined(views(after)) == self@.insert(p, v) by {
                assert(views(before)[i].contains_key(p));
                assert(joined(views(after)) =~= self@.insert(p, v));
            }
        }
    }

    /// Returns the shard of `key`, and the hash of `key`.
    pub fn shard(&self, key: &K) -> (located: (&Shard<K, V>, u64))
        requires
            self.wf(),
        ensures
            hashes_to(self.hasher(), *key, located.1),
            0 <= route(located.1, self.shards().len() as int) < self.shards().len(),
            located.0.wf(),
            *located.0 == self.shards()[route(located.1, self.shards().len() as int)],
    {
        let hash: u64 = hash_key(&self.hasher, key);
        let shard_idx: usize = self.layout.shard_for_hash(hash as usize);
        (&self.shards[shard_idx], hash)
    }

    /// Inserts an entry under `hash`, in place of the entry filed there under an
    /// equal key. Returns the value of that entry.
    pub fn insert_hashed(&mut self, hash: u64, key: K, value: V) -> (replaced: Option<V>)
        requires
            old(self).wf(),
            old(self).has_room(),
        ensures
            final(self).wf(),
            final(self).hasher() == old(self).hasher(),
            final(self).count() == old(self).count() + (if replaced is Some {
                0int
            } else {
                1int
            }),
            forall|p: (u64, K)| #[trigger]
                final(self)@.contains_key(p) ==> old(self)@.contains_key(p) || p == (hash, key),
            final(self)@.contains_key((hash, key)),
            all_entries(final(self).shards()).contains(((hash, key), value)),
            replaced matches Some(v) ==> filed_with(all_entries(old(self).shards()), hash, v),
            lawful_key::<K>() ==> {
                &&& final(self)@ == put(old(self)@, (hash, key), value)
                &&& replaced == lookup(old(self)@, (hash, key))
            },
            only_shard_changes(
                old(self).shards(),
                final(self).shards(),
                route(hash, old(self).shards().len() as int),
            ),
    {
        let shard_idx: usize = self.layout.shard_for_hash(hash as usize);
        let ghost before = self.shards@;
        let ghost q = (hash, key);
        proof {
            self.lemma_lookup(q);
            lemma_joined_put(views(before), q, value);
            lemma_count(before, shard_idx as int, before[shard_idx as int]);
            lemma_filed(before, shard_idx as int, hash);
        }
        let replaced = self.shards[shard_idx].insert(hash, key, value);
        proof {
            let i = shard_idx as int;
            let shard = self.shards@[i];
            assert(self.shards@ =~= before.update(i, shard));
            assert forall|p: (u64, K)| #[trigger] shard@.contains_key(p) implies route(
                p.0,
                before.len() as int,
            ) == i by {
                if p != q {
                    assert(views(before)[i].contains_key(p));
                }
            }
            lemma_set_shard(before, i, shard);
            lemma_part(self.shards@, i, (q, value));
        }
        replaced
    }

    /// Inserts an entry into the map, in place of the entry for an equal key.
    /// Returns the value of that entry.
    pub fn insert(&mut self, key: K, value: V) -> (replaced: Option<V>)
        requires
            old(self).wf(),
            old(self).has_room(),
        ensures
            final(self).wf(),
            final(self).hasher() == old(self).hasher(),
            final(self).count() == old(self).count() + (if replaced is Some {
                0int
            } else {
                1int
            }),
            old(self).hashed() ==> final(self).hashed(),
            exists|hash: u64|
                {
                    &&& #[trigger] hashes_to(old(self).hasher(), key, hash)
                    &&& forall|p: (u64, K)| #[trigger]
                        final(self)@.contains_key(p) ==> old(self)@.contains_key(p) || p == (
                            hash,
                            key,
                        )
                    &&& final(self)@.contains_key((hash, key))
                    &&& all_entries(final(self).shards()).contains(((hash, key), value))
                    &&& replaced matches Some(v) ==> filed_with(
                        all_entries(old(self).shards()),
                        hash,
                        v,
                    )
                    &&& lawful_key::<K>() ==> {
                        &&& final(self)@ == put(old(self)@, (hash, key), value)
                        &&& replaced == lookup(old(self)@, (hash, key))
                    }
                    &&& only_shard_changes(
                        old(self).shards(),
                        final(self).shards(),
                        route(hash, old(self).shards().len() as int),
                    )
                },
            old(self).consistent() ==> {
                &&& final(self).contents() == put(old(self).contents(), key, value)
                &&& replaced == lookup(old(self).contents(), key)
            },
    {
        let hash: u64 = hash_key(&self.hasher, &key);
        proof {
            if self.consistent() {
                self.lemma_entries();
                lemma_by_key_without(self.hasher, self@, hash, key);
                lemma_by_key_put(self.hasher, self@, hash, key, value);
            }
        }
        self.insert_hashed(hash, key, value)
    }

    /// Returns a reference to the entry for `key` under `hash`.
    pub fn get_hashed(&self, hash: u64, key: &K) -> (entry: Option<MapRef<'_, K, V>>)
        requires
            self.wf(),
        ensures
            entry matches Some(e) ==> all_entries(self.shards()).contains(
                ((hash, *e.key), *e.value),
            ),
            lawful_key::<K>() ==> match entry {
                Some(e) => {
                    &&& stored_key(self@, (hash, *key)) == Some((hash, *e.key))
                    &&& lookup(self@, (hash, *key)) == Some(*e.value)
                },
                None => stored_key(self@, (hash, *key)) is None,
            },
    {
        let shard_idx: usize = self.layout.shard_for_hash(hash as usize);
        proof {
            self.lemma_lookup((hash, *key));
        }
        let entry = self.shards[shard_idx].get(hash, key);
        proof {
            if entry is Some {
                let e = ((hash, *entry->0.key), *entry->0.value);
                lemma_part(self.shards@, shard_idx as int, e);
            }
        }
        entry
    }

    /// Returns a reference to the entry for `key`.
    pub fn get(&self, key: &K) -> (entry: Option<MapRef<'_, K, V>>)
        requires
            self.wf(),
        ensures
            exists|hash: u64|
                {
                    &&& #[trigger] hashes_to(self.hasher(), *key, hash)
                    &&& entry matches Some(e) ==> all_entries(self.shards()).contains(
                        ((hash, *e.key), *e.value),
                    )
                    &&& lawful_key::<K>() ==> match entry {
                        Some(e) => {
                            &&& stored_key(self@, (hash, *key)) == Some((hash, *e.key))
                            &&& lookup(self@, (hash, *key)) == Some(*e.value)
                        },
                        None => stored_key(self@, (hash, *key)) is None,
                    }
                },
            self.consistent() ==> match entry {
                Some(e) => {
                    &&& stored_key(self.contents(), *key) == Some(*e.key)
                    &&& lookup(self.contents(), *key) == Some(*e.value)
                },
                None => stored_key(self.contents(), *key) is None,
            },
    {
        let (shard, hash) = self.shard(key);
        proof {
            self.lemma_lookup((hash, *key));
            if self.consistent() {
                self.lemma_entries();
                lemma_by_key_without(self.hasher, self@, hash, *key);
            }
        }
        let entry = shard.get(hash, key);
        proof {
            assert(hashes_to(self.hasher(), *key, hash));
            if entry is Some {
                let e = ((hash, *entry->0.key), *entry->0.value);
                lemma_part(self.shards(), route(hash, self.shards().len() as int), e);
            }
        }
        entry
    }

    /// Returns a mutable reference to the entry for `key` under `hash`.
    pub fn get_mut_hashed(&mut self, hash: u64, key: &K) -> (entry: Option<MapRefMut<'_, K, V>>)
        requires
            old(self).wf(),
        ensures
            final(self).wf(),
            final(self).hasher() == old(self).hasher(),
            final(self).count() == old(self).count(),
            final(self)@.dom() == old(self)@.dom(),
            entry matches Some(e) ==> all_entries(old(self).shards()).contains(
                ((hash, *e.key), *e.value),
            ),
            entry is None ==> final(self)@ == old(self)@,
            lawful_key::<K>() ==> match entry {
                Some(e) => {
                    &&& stored_key(old(self)@, (hash, *key)) == Some((hash, *e.key))
                    &&& lookup(old(self)@, (hash, *key)) == Some(*e.value)
                    &&& final(self)@ == old(self)@.insert((hash, *e.key), *final(e.value))
                },
                None => {
                    &&& stored_key(old(self)@, (hash, *key)) is None
                    &&& final(self)@ == old(self)@
                },
            },
            only_shard_changes(
                old(self).shards(),
                final(self).shards(),
                route(hash, old(self).shards().len() as int),
            ),
    {
        let shard_idx: usize = self.layout.shard_for_hash(hash as usize);
        proof {
            self.lemma_lookup((hash, *key));
            self.lemma_change_values(shard_idx as int);
            let here = self.shards@[shard_idx as int].entries();
            assert forall|i: int| 0 <= i < here.len() implies all_entries(self.shards@).contains(
                #[trigger] here[i],
            ) by {
                lemma_part(self.shards@, shard_idx as int, here[i]);
            }
        }
        self.shards[shard_idx].get_mut(hash, key)
    }

    /// Returns a mutable reference to the entry for `key`.
    pub fn get_mut(&mut self, key: &K) -> (entry: Option<MapRefMut<'_, K, V>>)
        requires
            old(self).wf(),
        ensures
            final(self).wf(),
            final(self).hasher() == old(self).hasher(),
            final(self).count() == old(self).count(),
            old(self).hashed() ==> final(self).hashed(),
            final(self)@.dom() == old(self)@.dom(),
            entry is None ==> final(self)@ == old(self)@,
            exists|hash: u64|
                {
                    &&& #[trigger] hashes_to(old(self).hasher(), *key, hash)
                    &&& entry matches Some(e) ==> all_entries(old(self).shards()).contains(
                        ((hash, *e.key), *e.value),
                    )
                    &&& lawful_key::<K>() ==> match entry {
                        Some(e) => {
                            &&& stored_key(old(self)@, (hash, *key)) == Some((hash, *e.key))
                            &&& lookup(old(self)@, (hash, *key)) == Some(*e.value)
                            &&& final(self)@ == old(self)@.insert((hash, *e.key), *final(e.value))
                        },
                        None => {
                            &&& stored_key(old(self)@, (hash, *key)) is None
                            &&& final(self)@ == old(self)@
                        },
                    }
                    &&& only_shard_changes(
                        old(self).shards(),
                        final(self).shards(),
                        route(hash, old(self).shards().len() as int),
                    )
                },
            old(self).consistent() ==> match entry {
                Some(e) => {
                    &&& stored_key(old(self).contents(), *key) == Some(*e.key)
                    &&& lookup(old(self).contents(), *key) == Some(*e.value)
                    &&& final(self).contents() == old(self).contents().insert(
                        *e.key,
                        *final(e.value),
                    )
                },
                None => {
                    &&& stored_key(old(self).contents(), *key) is None
                    &&& final(self).contents() == old(self).contents()
                },
            },
    {
        let hash: u64 = hash_key(&self.hasher, key);
        proof {
            if self.consistent() {
                self.lemma_entries();
                lemma_by_key_without(self.hasher, self@, hash, *key);
                let stored = stored_key(self@, (hash, *key));
                if stored is Some {
                    assert forall|v: V| by_key(#[trigger] self@.insert(stored->0, v))
                        == self.contents().insert((stored->0).1, v) by {
                        lemma_by_key_insert(self.hasher, self@, stored->0, v);
                    }
                }
            }
        }
        self.get_mut_hashed(hash, key)
    }

    /// Returns `true` if the map has an entry for `key` under `hash`.
    pub fn contains_key_hashed(&self, hash: u64, key: &K) -> (found: bool)
        requires
            self.wf(),
        ensures
            found ==> exists|i: int|
                0 <= i < self.count() && (#[trigger] all_entries(self.shards())[i]).0.0 == hash,
            lawful_key::<K>() ==> found == stored_key(self@, (hash, *key)) is Some,
    {
        let shard_idx: usize = self.layout.shard_for_hash(hash as usize);
        proof {
            self.lemma_lookup((hash, *key));
            lemma_filed(self.shards@, shard_idx as int, hash);
        }
        self.shards[shard_idx].contains_key(hash, key)
    }

    /// Returns `true` if the map has an entry for `key`.
    pub fn contains_key(&self, key: &K) -> (found: bool)
        requires
            self.wf(),
        ensures
            exists|hash: u64|
                {
                    &&& #[trigger] hashes_to(self.hasher(), *key, hash)
                    &&& found ==> exists|i: int|
                        0 <= i < self.count() && (#[trigger] all_entries(self.shards())[i]).0.0
                            == hash
                    &&& lawful_key::<K>() ==> found == stored_key(self@, (hash, *key)) is Some
                },
            self.consistent() ==> found == stored_key(self.contents(), *key) is Some,
    {
        let (shard, hash) = self.shard(key);
        proof {
            self.lemma_lookup((hash, *key));
            lemma_filed(self.shards@, route(hash, self.shards@.len() as int), hash);
            if self.consistent() {
                self.lemma_entries();
                lemma_by_key_without(self.hasher, self@, hash, *key);
            }
        }
        let found: bool = shard.contains_key(hash, key);
        assert(hashes_to(self.hasher(), *key, hash));
        found
    }

    /// Takes out the entry for `key` under `hash` and returns its value.
    pub fn remove_hashed(&mut self, hash: u64, key: &K) -> (removed: Option<V>)
        requires
            old(self).wf(),
        ensures
            final(self).wf(),
            final(self).hasher() == old(self).hasher(),
            final(self).count() == old(self).count() - (if removed is Some {
                1int
            } else {
                0int
            }),
            forall|p: (u64, K)| #[trigger]
                final(self)@.contains_key(p) ==> old(self)@.contains_key(p),
            removed matches Some(v) ==> filed_with(all_entries(old(self).shards()), hash, v),
            removed is None ==> final(self)@ == old(self)@,
            lawful_key::<K>() ==> {
                &&& final(self)@ == without(old(self)@, (hash, *key))
                &&& removed == lookup(old(self)@, (hash, *key))
            },
            only_shard_changes(
                old(self).shards(),
                final(self).shards(),
                route(hash, old(self).shards().len() as int),
            ),
    {
        let shard_idx: usize = self.layout.shard_for_hash(hash as usize);
        let ghost before = self.shards@;
        let ghost q = (hash, *key);
        proof {
            self.lemma_lookup(q);
            lemma_joined_without(views(before), q);
            lemma_filed(before, shard_idx as int, hash);
        }
        let removed = self.shards[shard_idx].remove(hash, key);
        proof {
            let i = shard_idx as int;
            let shard = self.shards@[i];
            assert(self.shards@ =~= before.update(i, shard));
            assert forall|p: (u64, K)| #[trigger] shard@.contains_key(p) implies route(
                p.0,
                before.len() as int,
            ) == i by {
                assert(views(before)[i].contains_key(p));
            }
            lemma_set_shard(before, i, shard);
        }
        removed
    }

    /// Takes out the entry for `key` and returns its value.
    pub fn remove(&mut self, key: &K) -> (removed: Option<V>)
        requires
            old(self).wf(),
        ensures
            final(self).wf(),
            final(self).hasher() == old(self).hasher(),
            final(self).count() == old(self).count() - (if removed is Some {
                1int
            } else {
                0int
            }),
            old(self).hashed() ==> final(self).hashed(),
            forall|p: (u64, K)| #[trigger]
                final(self)@.contains_key(p) ==> old(self)@.contains_key(p),
            removed is None ==> final(self)@ == old(self)@,
            exists|hash: u64|
                {
                    &&& #[trigger] hashes_to(old(self).hasher(), *key, hash)
                    &&& removed matches Some(v) ==> filed_with(
                        all_entries(old(self).shards()),
                        hash,
                        v,
                    )
                    &&& lawful_key::<K>() ==> {
                        &&& final(self)@ == without(old(self)@, (hash, *key))
                        &&& removed == lookup(old(self)@, (hash, *key))
                    }
                    &&& only_shard_changes(
                        old(self).shards(),
                        final(self).shards(),
                        route(hash, old(self).shards().len() as int),
                    )
                },
            old(self).consistent() ==> {
                &&& final(self).contents() == without(old(self).contents(), *key)
                &&& removed == lookup(old(self).contents(), *key)
            },
    {
        let hash: u64 = hash_key(&self.hasher, key);
        proof {
            if self.consistent() {
                self.lemma_entries();
                lemma_by_key_without(self.hasher, self@, hash, *key);
            }
        }
        self.remove_hashed(hash, key)
    }

    /// Returns the number of entries in the map.
    pub fn len(&self) -> (len: usize)
        requires
            self.wf(),
        ensures
            len == self.count(),
            lawful_key::<K>() ==> len == self@.len(),
            self.consistent() ==> len == self.contents().len(),
    {
        proof {
            if lawful_key::<K>() {
                self.lemma_entries();
            }
            if self.consistent() {
                lemma_by_key(self.hasher, self@);
            }
            assert(self.shards@.take(0) =~= Seq::empty());
        }
        let mut sum: usize = 0;
        let mut idx: usize = 0;
        while idx < self.shards.len()
            invariant
                self.wf(),
                idx <= self.shards@.len(),
                sum == all_entries(self.shards@.take(idx as int)).len(),
            decreases self.shards@.len() - idx,
        {
            let shard_len: usize = self.shards[idx].len();
            proof {
                lemma_step(self.shards@, idx as int);
                lemma_prefix(self.shards@, idx + 1);
            }
            sum += shard_len;
            idx += 1;
        }
        assert(self.shards@.take(idx as int) =~= self.shards@);
        sum
    }

    /// Returns `true` if the map has no entry.
    pub fn is_empty(&self) -> (empty: bool)
        requires
            self.wf(),
        ensures
            empty == (self.count() == 0),
            lawful_key::<K>() ==> empty == (self@ == Map::<(u64, K), V>::empty()),
            lawful_key::<K>() ==> empty == (self.contents() == Map::<K, V>::empty()),
    {
        proof {
            if lawful_key::<K>() {
                self.lemma_entries();
                if self@.len() == 0 {
                    assert(self@.dom() =~= Set::empty());
                    assert(self@ =~= Map::empty());
                    assert(self.contents() =~= Map::empty());
                } else {
                    let p = self@.dom().choose();
                    assert(self@.contains_key((p.0, p.1)));
                    assert(self.contents().contains_key(p.1));
                }
            }
        }
        self.len() == 0
    }

    /// Takes out every entry.
    pub fn clear(&mut self)
        requires
            old(self).wf(),
        ensures
            final(self).wf(),
            final(self).hashed(),
            final(self).hasher() == old(self).hasher(),
            final(self).count() == 0,
            final(self)@ == Map::<(u64, K), V>::empty(),
            final(self).contents() == Map::<K, V>::empty(),
            final(self).shards().len() == old(self).shards().len(),
            forall|i: int|
                0 <= i < final(self).shards().len() ==> (#[trigger] final(
                    self).shards()[i]).capacity() == old(self).shards()[i].capacity(),
    {
        assert(self.shards@.take(0) =~= Seq::empty());
        let mut idx: usize = 0;
        while idx < self.shards.len()
            invariant
                idx <= self.shards@.len(),
                self.shards@.len() == old(self).shards@.len(),
                self.layout == old(self).layout,
                self.hasher == old(self).hasher,
                all_entries(self.shards@.take(idx as int)).len() == 0,
                forall|i: int|
                    0 <= i < self.shards@.len() ==> (#[trigger] self.shards@[i]).wf()
                        && self.shards@[i].capacity() == old(self).shards@[i].capacity(),
                forall|i: int|
                    0 <= i < idx ==> (#[trigger] self.shards@[i])@ == Map::<(u64, K), V>::empty(),
            decreases self.shards@.len() - idx,
        {
            let ghost done = self.shards@.take(idx as int);
            self.shards[idx].clear();
            proof {
                assert(self.shards@.take(idx as int) =~= done);
                lemma_step(self.shards@, idx as int);
            }
            idx += 1;
        }
        assert(self.shards@.take(idx as int) =~= self.shards@);
        assert(self@ =~= Map::empty());
        assert(self.contents() =~= Map::empty());
    }

    /// Returns read access to each shard, in order.
    pub fn stream_shards(&self) -> (reads: Vec<ShardRead<'_, K, V>>)
        requires
            self.wf(),
        ensures
            reads@.len() == self.shards().len(),
            forall|i: int|
                0 <= i < reads@.len() ==> (#[trigger] reads@[i]).shard() == self.shards()[i]
                    && reads@[i].shard().wf(),
    {
        let total: usize = self.shards.len();
        let mut reads: Vec<ShardRead<'_, K, V>> = Vec::new();
        let mut step: usize = 0;
        loop
            invariant
                self.wf(),
                total == self.shards@.len(),
                reads@.len() == step <= total,
                forall|i: int|
                    0 <= i < reads@.len() ==> (#[trigger] reads@[i]).shard() == self.shards()[i]
                        && reads@[i].shard().wf(),
            decreases total - step,
        {
            match next_shard(step, total) {
                Some((idx, next)) => {
                    reads.push(ShardRead::new(&self.shards[idx]));
                    step = next;
                },
                None => {
                    return reads;
                },
            }
        }
    }

    /// Returns clones of the keys and values of the map, shard by shard.
    pub fn stream_owned(&self) -> (items: Vec<(K, V)>) where K: Clone, V: Clone
        requires
            self.wf(),
        ensures
            clones_of(all_entries(self.shards()), items@),
            items@.len() == self.count(),
            self.consistent() ==> items@.len() == self.contents().len() && exists|at: Map<K, int>|
                {
                    &&& at.dom() == self.contents().dom()
                    &&& #[trigger] at.is_injective()
                    &&& forall|k: K|
                        self.contents().contains_key(k) ==> {
                            &&& 0 <= #[trigger] at[k] < items@.len()
                            &&& cloned(k, items@[at[k]].0)
                            &&& cloned(self.contents()[k], items@[at[k]].1)
                        }
                },
    {
        let shards = self.stream_shards();
        let mut items: Vec<(K, V)> = Vec::new();
        let mut idx: usize = 0;
        while idx < shards.len()
            invariant
                self.wf(),
                shards@.len() == self.shards().len(),
                forall|i: int|
                    0 <= i < shards@.len() ==> (#[trigger] shards@[i]).shard() == self.shards()[i],
                idx <= shards@.len(),
                clones_of(all_entries(self.shards().take(idx as int)), items@),
            decreases shards@.len() - idx,
        {
            let ghost before = items@;
            let mut shard_items: Vec<(K, V)> = shards[idx].owned_entries();
            let ghost added = shard_items@;
            items.append(&mut shard_items);
            proof {
                lemma_step(self.shards(), idx as int);
                assert(clones_of(self.shards()[idx as int].entries(), added));
                assert(items@ =~= before + added);
            }
            idx += 1;
        }
        proof {
            assert(self.shards().take(idx as int) =~= self.shards());
            if self.consistent() {
                law_entries(*self, items@);
            }
        }
        items
    }

    /// Returns clones of the keys and values of the map.
    pub fn entries(&self) -> (items: Vec<(K, V)>) where K: Clone, V: Clone
        requires
            self.wf(),
        ensures
            clones_of(all_entries(self.shards()), items@),
            items@.len() == self.count(),
            self.consistent() ==> items@.len() == self.contents().len() && exists|at: Map<K, int>|
                {
                    &&& at.dom() == self.contents().dom()
                    &&& #[trigger] at.is_injective()
                    &&& forall|k: K|
                        self.contents().contains_key(k) ==> {
                            &&& 0 <= #[trigger] at[k] < items@.len()
                            &&& cloned(k, items@[at[k]].0)
                            &&& cloned(self.contents()[k], items@[at[k]].1)
                        }
                },
    {
        self.stream_owned()
    }

    /// Returns clones of the keys of the map.
    pub fn keys(&self) -> (keys: Vec<K>) where K: Clone
        requires
            self.wf(),
        ensures
            key_clones_of(all_entries(self.shards()), keys@),
            keys@.len() == self.count(),
            self.consistent() ==> keys@.len() == self.contents().len() && exists|at: Map<K, int>|
                {
                    &&& at.dom() == self.contents().dom()
                    &&& #[trigger] at.is_injective()
                    &&& forall|k: K|
                        self.contents().contains_key(k) ==> {
                            &&& 0 <= #[trigger] at[k] < keys@.len()
                            &&& cloned(k, keys@[at[k]])
                        }
                },
    {
        let shards = self.stream_shards();
        let mut keys: Vec<K> = Vec::new();
        let mut idx: usize = 0;
        while idx < shards.len()
            invariant
                self.wf(),
                shards@.len() == self.shards().len(),
                forall|i: int|
                    0 <= i < shards@.len() ==> (#[trigger] shards@[i]).shard() == self.shards()[i],
                idx <= shards@.len(),
                key_clones_of(all_entries(self.shards().take(idx as int)), keys@),
            decreases shards@.len() - idx,
        {
            let ghost before = keys@;
            let mut shard_keys: Vec<K> = shards[idx].owned_keys();
            let ghost added = shard_keys@;
            keys.append(&mut shard_keys);
            proof {
                lemma_step(self.shards(), idx as int);
                assert(key_clones_of(self.shards()[idx as int].entries(), added));
                assert(keys@ =~= before + added);
            }
            idx += 1;
        }
        proof {
            assert(self.shards().take(idx as int) =~= self.shards());
            if self.consistent() {
                law_keys(*self, keys@);
            }
        }
        keys
    }

    /// Returns clones of the values of the map.
    pub fn values(&self) -> (values: Vec<V>) where V: Clone
        requires
            self.wf(),
        ensures
            value_clones_of(all_entries(self.shards()), values@),
            values@.len() == self.count(),
            self.consistent() ==> values@.len() == self.contents().len() && exists|at: Map<K, int>|
                {
                    &&& at.dom() == self.contents().dom()
                    &&& #[trigger] at.is_injective()
                    &&& forall|k: K|
                        self.contents().contains_key(k) ==> {
                            &&& 0 <= #[trigger] at[k] < values@.len()
                            &&& cloned(self.contents()[k], values@[at[k]])
                        }
                },
    {
        let shards = self.stream_shards();
        let mut values: Vec<V> = Vec::new();
        let mut idx: usize = 0;
        while idx < shards.len()
            invariant
                self.wf(),
                shards@.len() == self.shards().len(),
                forall|i: int|
                    0 <= i < shards@.len() ==> (#[trigger] shards@[i]).shard() == self.shards()[i],
                idx <= shards@.len(),
                value_clones_of(all_entries(self.shards().take(idx as int)), values@),
            decreases shards@.len() - idx,
        {
            let ghost before = values@;
            let mut shard_values: Vec<V> = shards[idx].owned_values();
            let ghost added = shard_values@;
            values.append(&mut shard_values);
            proof {
                lemma_step(self.shards(), idx as int);
                assert(value_clones_of(self.shards()[idx as int].entries(), added));
                assert(values@ =~= before + added);
            }
            idx += 1;
        }
        proof {
            assert(self.shards().take(idx as int) =~= self.shards());
            if self.consistent() {
                law_values(*self, values@);
            }
        }
        values
    }

    /// Returns the keys and values of the map, shard by shard.
    pub fn iter(&self) -> (items: Vec<(&K, &V)>)
        requires
            self.wf(),
        ensures
            items@.len() == self.count(),
            self.consistent() ==> items@.len() == self.contents().len() && exists|at: Map<K, int>|
                {
                    &&& at.dom() == self.contents().dom()
                    &&& #[trigger] at.is_injective()
                    &&& forall|k: K|
                        self.contents().contains_key(k) ==> {
                            &&& 0 <= #[trigger] at[k] < items@.len()
                            &&& *items@[at[k]].0 == k
                            &&& *items@[at[k]].1 == self.contents()[k]
                        }
                },
            items@.len() == all_entries(self.shards()).len(),
            forall|i: int|
                0 <= i < items@.len() ==> *(#[trigger] items@[i]).0 == all_entries(
                    self.shards(),
                )[i].0.1 && *items@[i].1 == all_entries(self.shards())[i].1,
    {
        let mut items: Vec<(&K, &V)> = Vec::new();
        let mut idx: usize = 0;
        while idx < self.shards.len()
            invariant
                self.wf(),
                idx <= self.shards@.len(),
                items@.len() == all_entries(self.shards().take(idx as int)).len(),
                forall|i: int|
                    0 <= i < items@.len() ==> *(#[trigger] items@[i]).0 == all_entries(
                        self.shards().take(idx as int),
                    )[i].0.1 && *items@[i].1 == all_entries(self.shards().take(idx as int))[i].1,
            decreases self.shards@.len() - idx,
        {
            let mut place: usize = 0;
            let len: usize = self.shards[idx].len();
            let ghost done = all_entries(self.shards().take(idx as int));
            let ghost here = self.shards()[idx as int].entries();
            proof {
                lemma_step(self.shards(), idx as int);
            }
            while place < len
                invariant
                    idx < self.shards@.len(),
                    here == self.shards@[idx as int].entries(),
                    len == here.len(),
                    place <= len,
                    items@.len() == done.len() + place,
                    forall|i: int|
                        0 <= i < items@.len() ==> *(#[trigger] items@[i]).0 == (done + here)[i].0.1
                            && *items@[i].1 == (done + here)[i].1,
                decreases len - place,
            {
                items.push(self.shards[idx].entry_at(place));
                place += 1;
            }
            idx += 1;
        }
        proof {
            assert(self.shards().take(idx as int) =~= self.shards());
            if self.consistent() {
                let at = law_places(*self);
                assert(at.is_injective());
            }
        }
        items
    }

    /// Returns the keys of the map, and their values, to be changed, shard by
    /// shard.
    pub fn iter_mut(&mut self) -> (items: Vec<(&K, &mut V)>)
        requires
            old(self).wf(),
        ensures
            final(self).wf(),
            final(self).hasher() == old(self).hasher(),
            old(self).hashed() ==> final(self).hashed(),
            final(self)@.dom() == old(self)@.dom(),
            only_values_change(old(self).shards(), final(self).shards()),
            items@.len() == old(self).count(),
            old(self).consistent() ==> final(self).contents().dom() == old(self).contents().dom()
                && exists|at: Map<K, int>|
                {
                    &&& at.dom() == old(self).contents().dom()
                    &&& #[trigger] at.is_injective()
                    &&& forall|k: K|
                        old(self).contents().contains_key(k) ==> {
                            &&& 0 <= #[trigger] at[k] < items@.len()
                            &&& *items@[at[k]].0 == k
                            &&& *items@[at[k]].1 == old(self).contents()[k]
                            &&& final(self).contents()[k] == *final(items@[at[k]].1)
                        }
                },
            items@.len() == all_entries(old(self).shards()).len(),
            all_entries(final(self).shards()).len() == items@.len(),
            forall|i: int|
                #![trigger items@[i]]
                #![trigger all_entries(final(self).shards())[i]]
                0 <= i < items@.len() ==> {
                    &&& *items@[i].0 == all_entries(old(self).shards())[i].0.1
                    &&& *items@[i].1 == all_entries(old(self).shards())[i].1
                    &&& all_entries(final(self).shards())[i] == (
                        all_entries(old(self).shards())[i].0,
                        *final(items@[i].1),
                    )
                },
    {
        let ghost before = self.shards@;
        proof {
            assert forall|after: Seq<Shard<K, V>>| #[trigger]
                only_values_change(before, after) implies routed(views(after)) && joined(
                views(after),
            ).dom() == joined(views(before)).dom() by {
                lemma_values_change(before, after);
            }
            if self.consistent() {
                let at = law_places(*self);
                assert(at.is_injective());
                assert forall|after: Seq<Shard<K, V>>| #[trigger]
                    only_values_change(before, after) implies by_key(joined(views(after))).dom()
                    == self.contents().dom() && forall|i: int|
                    0 <= i < all_entries(after).len() ==> by_key(
                        joined(views(after)),
                    )[(#[trigger] all_entries(after)[i]).0.1] == all_entries(after)[i].1 by {
                    lemma_values_change(before, after);
                    lemma_by_key_walk(self.hasher, before, after);
                }
            }
        }
        shard_refs_mut(self.shards.as_mut_slice())
    }

    /// Returns the values of the map, to be changed, shard by shard.
    pub fn values_mut(&mut self) -> (values: Vec<&mut V>)
        requires
            old(self).wf(),
        ensures
            final(self).wf(),
            final(self).hasher() == old(self).hasher(),
            old(self).hashed() ==> final(self).hashed(),
            final(self)@.dom() == old(self)@.dom(),
            only_values_change(old(self).shards(), final(self).shards()),
            values@.len() == old(self).count(),
            old(self).consistent() ==> final(self).contents().dom() == old(self).contents().dom()
                && exists|at: Map<K, int>|
                {
                    &&& at.dom() == old(self).contents().dom()
                    &&& #[trigger] at.is_injective()
                    &&& forall|k: K|
                        old(self).contents().contains_key(k) ==> {
                            &&& 0 <= #[trigger] at[k] < values@.len()
                            &&& *values@[at[k]] == old(self).contents()[k]
                            &&& final(self).contents()[k] == *final(values@[at[k]])
                        }
                },
            values@.len() == all_entries(old(self).shards()).len(),
            all_entries(final(self).shards()).len() == values@.len(),
            forall|i: int|
                #![trigger values@[i]]
                #![trigger all_entries(final(self).shards())[i]]
                0 <= i < values@.len() ==> {
                    &&& *values@[i] == all_entries(old(self).shards())[i].1
                    &&& all_entries(final(self).shards())[i] == (
                        all_entries(old(self).shards())[i].0,
                        *final(values@[i]),
                    )
                },
    {
        let mut values: Vec<&mut V> = Vec::new();
        let items = self.iter_mut();
        for item in it: items
            invariant
                values@.len() == it.index(),
                forall|i: int|
                    0 <= i < values@.len() ==> *(#[trigger] values@[i]) == *it.seq()[i].1
                        && *final(values@[i]) == *final(it.seq()[i].1),
        {
            values.push(item.1);
        }
        values
    }
}

} // verus!
