//! A hash set split into shards.
use crate::hashing::hashes_to;
use crate::layout::suits_parallelism;
use crate::model::{
    holds, lawful_key, lemma_dom, put, set_put, set_without, stored_key, without,
};
use crate::shard_map::ShardMap;
use crate::shard_read::key_clones_of;
use crate::sharding::{all_entries, only_shard_changes, route};
use crate::walks::{law_places, law_set_values};
use std::hash::{BuildHasher, Hash, RandomState};
use vstd::arithmetic::power2::is_pow2;
use vstd::prelude::*;
use vstd::std_specs::hash::obeys_key_model;

verus! {

/// A set based on a [`ShardMap`] with values of `()`.
pub struct ShardSet<T, S = RandomState> {
    inner: ShardMap<T, (), S>,
}

impl<T, S> ShardSet<T, S> {
    /// The map behind the set.
    pub closed spec fn map(&self) -> ShardMap<T, (), S> {
        self.inner
    }

    /// The values of the set.
    pub open spec fn contents(&self) -> Set<T> {
        self.map().contents().dom()
    }
}

impl<T, S> View for ShardSet<T, S> {
    type V = Set<(u64, T)>;

    /// The values of the set, with the hashes they are filed under.
    open spec fn view(&self) -> Set<(u64, T)> {
        self.map()@.dom()
    }
}

impl<T: Eq + Hash> ShardSet<T, RandomState> {
    /// Creates a set with a random hasher, for a machine that runs `parallelism`
    /// threads at a time.
    pub fn new(parallelism: Option<usize>) -> (set: Self)
        requires
            parallelism matches Some(p) ==> 1 <= p <= usize::MAX / 8 + 1,
        ensures
            set.wf(),
            set.map().hashed(),
            obeys_key_model::<T>() && lawful_key::<T>() ==> set.map().consistent(),
            set@ == Set::<(u64, T)>::empty(),
            set.contents() == Set::<T>::empty(),
            set.map().count() == 0,
            set.map().made_to_hold(4),
            suits_parallelism(set.map().shards().len() as int, parallelism),
            parallelism matches Some(p) ==> 4 * p <= set.map().shards().len() < 8 * p,
            parallelism is None ==> set.map().shards().len() == 4,
    {
        let set = ShardSet { inner: ShardMap::new(parallelism) };
        assert(set@ =~= Set::empty());
        assert(set.contents() =~= Set::empty());
        set
    }

    /// Creates a set with a random hasher and `shards` shards.
    pub fn new_with_shards(shards: usize) -> (set: Self)
        requires
            shards > 1,
            is_pow2(shards as int),
        ensures
            set.wf(),
            set.map().hashed(),
            obeys_key_model::<T>() && lawful_key::<T>() ==> set.map().consistent(),
            set@ == Set::<(u64, T)>::empty(),
            set.contents() == Set::<T>::empty(),
            set.map().count() == 0,
            set.map().made_to_hold(4),
            set.map().shards().len() == shards,
    {
        let set = ShardSet { inner: ShardMap::with_shards(shards) };
        assert(set@ =~= Set::empty());
        assert(set.contents() =~= Set::empty());
        set
    }
}

impl<T: Eq + Hash, S: BuildHasher> ShardSet<T, S> {
    /// Whether the map behind the set is well formed.
    pub open spec fn wf(&self) -> bool {
        self.map().wf()
    }

    /// Creates a set with the hasher `hasher`, for a machine that runs
    /// `parallelism` threads at a time.
    pub fn new_with_hasher(parallelism: Option<usize>, hasher: S) -> (set: Self)
        requires
            parallelism matches Some(p) ==> 1 <= p <= usize::MAX / 8 + 1,
        ensures
            set.wf(),
            set.map().hashed(),
            set@ == Set::<(u64, T)>::empty(),
            set.contents() == Set::<T>::empty(),
            set.map().count() == 0,
            set.map().made_to_hold(4),
            set.map().hasher() == hasher,
            suits_parallelism(set.map().shards().len() as int, parallelism),
            parallelism matches Some(p) ==> 4 * p <= set.map().shards().len() < 8 * p,
            parallelism is None ==> set.map().shards().len() == 4,
    {
        let set = ShardSet { inner: ShardMap::with_hasher(parallelism, hasher) };
        assert(set@ =~= Set::empty());
        assert(set.contents() =~= Set::empty());
        set
    }

    /// Creates a set with the hasher `hasher` and `shards` shards.
    pub fn new_with_shards_and_hasher(shards: usize, hasher: S) -> (set: Self)
        requires
            shards > 1,
            is_pow2(shards as int),
        ensures
            set.wf(),
            set.map().hashed(),
            set@ == Set::<(u64, T)>::empty(),
            set.contents() == Set::<T>::empty(),
            set.map().count() == 0,
            set.map().made_to_hold(4),
            set.map().hasher() == hasher,
            set.map().shards().len() == shards,
    {
        let set = ShardSet { inner: ShardMap::with_shards_and_hasher(shards, hasher) };
        assert(set@ =~= Set::empty());
        assert(set.contents() =~= Set::empty());
        set
    }

    /// Inserts a value into the set, in place of one that equals it.
    pub fn insert(&mut self, value: T)
        requires
            old(self).wf(),
            old(self).map().has_room(),
        ensures
            final(self).wf(),
            final(self).map().hasher() == old(self).map().hasher(),
            old(self).map().count() <= final(self).map().count() <= old(self).map().count() + 1,
            old(self).map().hashed() ==> final(self).map().hashed(),
            exists|hash: u64|
                {
                    &&& #[trigger] hashes_to(old(self).map().hasher(), value, hash)
                    &&& final(self).map().count() == old(self).map().count() ==> exists|i: int|
                        0 <= i < old(self).map().count() && (#[trigger] all_entries(
                            old(self).map().shards(),
                        )[i]).0.0 == hash
                    &&& final(self)@.contains((hash, value))
                    &&& forall|p: (u64, T)| #[trigger]
                        final(self)@.contains(p) ==> old(self)@.contains(p) || p == (hash, value)
                    &&& lawful_key::<T>() ==> final(self)@ == set_put(old(self)@, (hash, value))
                    &&& only_shard_changes(
                        old(self).map().shards(),
                        final(self).map().shards(),
                        route(hash, old(self).map().shards().len() as int),
                    )
                },
            old(self).map().consistent() ==> {
                &&& final(self).contents() == set_put(old(self).contents(), value)
                &&& final(self).map().count() == old(self).map().count() + (if holds(
                    old(self).contents(),
                    value,
                ) {
                    0int
                } else {
                    1int
                })
            },
    {
        proof {
            assert forall|hash: u64| #[trigger]
                hashes_to(self.inner.hasher(), value, hash) implies (forall|v: ()|
                (#[trigger] put(self.inner@, (hash, value), v)).dom() == set_put(
                    self@,
                    (hash, value),
                )) by {
                lemma_dom(self.inner@, (hash, value));
            }
            lemma_dom(self.inner.contents(), value);
        }
        let _ = self.inner.insert(value, ());
    }

    /// Returns `true` if the set has a value that equals `value`.
    pub fn contains(&self, value: &T) -> (found: bool)
        requires
            self.wf(),
        ensures
            exists|hash: u64|
                {
                    &&& #[trigger] hashes_to(self.map().hasher(), *value, hash)
                    &&& found ==> exists|i: int|
                        0 <= i < self.map().count() && (#[trigger] all_entries(
                            self.map().shards(),
                        )[i]).0.0 == hash
                    &&& lawful_key::<T>() ==> found == holds(self@, (hash, *value))
                },
            self.map().consistent() ==> found == holds(self.contents(), *value),
    {
        proof {
            assert forall|hash: u64| #[trigger]
                hashes_to(self.inner.hasher(), *value, hash) implies holds(self@, (hash, *value))
                == stored_key(self.inner@, (hash, *value)) is Some by {
                lemma_dom(self.inner@, (hash, *value));
            }
            lemma_dom(self.inner.contents(), *value);
        }
        self.inner.contains_key(value)
    }

    /// Takes out the value that equals `value`. Returns `true` if there was one.
    pub fn remove(&mut self, value: &T) -> (removed: bool)
        requires
            old(self).wf(),
        ensures
            final(self).wf(),
            final(self).map().hasher() == old(self).map().hasher(),
            final(self).map().count() == old(self).map().count() - (if removed {
                1int
            } else {
                0int
            }),
            old(self).map().hashed() ==> final(self).map().hashed(),
            final(self)@.subset_of(old(self)@),
            !removed ==> final(self)@ == old(self)@,
            exists|hash: u64|
                {
                    &&& #[trigger] hashes_to(old(self).map().hasher(), *value, hash)
                    &&& lawful_key::<T>() ==> {
                        &&& final(self)@ == set_without(old(self)@, (hash, *value))
                        &&& removed == holds(old(self)@, (hash, *value))
                    }
                    &&& only_shard_changes(
                        old(self).map().shards(),
                        final(self).map().shards(),
                        route(hash, old(self).map().shards().len() as int),
                    )
                },
            old(self).map().consistent() ==> {
                &&& final(self).contents() == set_without(old(self).contents(), *value)
                &&& removed == holds(old(self).contents(), *value)
            },
    {
        proof {
            assert forall|hash: u64| #[trigger]
                hashes_to(self.inner.hasher(), *value, hash) implies {
                &&& holds(self@, (hash, *value)) == stored_key(self.inner@, (hash, *value)) is Some
                &&& without(self.inner@, (hash, *value)).dom() == set_without(
                    self@,
                    (hash, *value),
                )
            } by {
                lemma_dom(self.inner@, (hash, *value));
            }
            lemma_dom(self.inner.contents(), *value);
        }
        self.inner.remove(value).is_some()
    }

    /// Returns the number of values in the set.
    pub fn len(&self) -> (len: usize)
        requires
            self.wf(),
        ensures
            len == self.map().count(),
            lawful_key::<T>() ==> len == self@.len(),
            self.map().consistent() ==> len == self.contents().len(),
    {
        self.inner.len()
    }

    /// Returns `true` if the set has no value.
    pub fn is_empty(&self) -> (empty: bool)
        requires
            self.wf(),
        ensures
            empty == (self.map().count() == 0),
            lawful_key::<T>() ==> empty == (self@ == Set::<(u64, T)>::empty()),
            lawful_key::<T>() ==> empty == (self.contents() == Set::<T>::empty()),
    {
        let empty: bool = self.inner.is_empty();
        proof {
            if self@ == Set::<(u64, T)>::empty() {
                assert(self.inner@ =~= Map::empty());
            }
            if self.contents() == Set::<T>::empty() {
                assert(self.inner.contents() =~= Map::empty());
            }
        }
        empty
    }

    /// Takes out every value.
    pub fn clear(&mut self)
        requires
            old(self).wf(),
        ensures
            final(self).wf(),
            final(self).map().hashed(),
            final(self).map().hasher() == old(self).map().hasher(),
            final(self).map().count() == 0,
            final(self)@ == Set::<(u64, T)>::empty(),
            final(self).contents() == Set::<T>::empty(),
            final(self).map().shards().len() == old(self).map().shards().len(),
            forall|i: int|
                0 <= i < final(self).map().shards().len() ==> (#[trigger] final(
                    self).map().shards()[i]).capacity() == old(self).map().shards()[i].capacity(),
    {
        self.inner.clear();
        assert(self@ =~= Set::empty());
        assert(self.contents() =~= Set::empty());
    }

    /// Returns clones of the values of the set.
    pub fn values(&self) -> (values: Vec<T>) where T: Clone
        requires
            self.wf(),
        ensures
            key_clones_of(all_entries(self.map().shards()), values@),
            values@.len() == self.map().count(),
            self.map().consistent() ==> values@.len() == self.contents().len()
                && exists|at: Map<T, int>|
                {
                    &&& at.dom() == self.contents()
                    &&& #[trigger] at.is_injective()
                    &&& forall|t: T|
                        self.contents().contains(t) ==> 0 <= #[trigger] at[t] < values@.len()
                            && cloned(t, values@[at[t]])
                },
    {
        let values: Vec<T> = self.inner.keys();
        proof {
            if self.inner.consistent() {
                law_set_values(*self, values@);
            }
        }
        values
    }

    /// Returns the values of the set, shard by shard.
    pub fn iter(&self) -> (values: Vec<&T>)
        requires
            self.wf(),
        ensures
            values@.len() == self.map().count(),
            self.map().consistent() ==> values@.len() == self.contents().len()
                && exists|at: Map<T, int>|
                {
                    &&& at.dom() == self.contents()
                    &&& #[trigger] at.is_injective()
                    &&& forall|t: T|
                        self.contents().contains(t) ==> 0 <= #[trigger] at[t] < values@.len()
                            && *values@[at[t]] == t
                },
            forall|i: int|
                0 <= i < values@.len() ==> *(#[trigger] values@[i]) == all_entries(
                    self.map().shards(),
                )[i].0.1,
    {
        let mut values: Vec<&T> = Vec::new();
        let items = self.inner.iter();
        while values.len() < items.len()
            invariant
                values@.len() <= items@.len(),
                forall|i: int| 0 <= i < values@.len() ==> #[trigger] values@[i] == items@[i].0,
            decreases items@.len() - values@.len(),
        {
            values.push(items[values.len()].0);
        }
        proof {
            if self.inner.consistent() {
                let at = law_places(self.inner);
                assert(at.is_injective());
            }
        }
        values
    }
}

} // verus!
