//! Walks over the entries of one shard.
use crate::model::lawful_key;
use crate::shard::Shard;
use vstd::prelude::*;

verus! {

/// Whether `copies` holds clones of the keys and values of `entries`, in order.
pub open spec fn clones_of<K: Clone, V: Clone>(
    entries: Seq<((u64, K), V)>,
    copies: Seq<(K, V)>,
) -> bool {
    &&& copies.len() == entries.len()
    &&& forall|i: int|
        0 <= i < copies.len() ==> cloned(entries[i].0.1, (#[trigger] copies[i]).0) && cloned(
            entries[i].1,
            copies[i].1,
        )
}

/// Whether `copies` holds clones of the keys of `entries`, in order.
pub open spec fn key_clones_of<K: Clone, V>(
    entries: Seq<((u64, K), V)>,
    copies: Seq<K>,
) -> bool {
    &&& copies.len() == entries.len()
    &&& forall|i: int| 0 <= i < copies.len() ==> cloned(entries[i].0.1, #[trigger] copies[i])
}

/// Whether `copies` holds clones of the values of `entries`, in order.
pub open spec fn value_clones_of<K, V: Clone>(
    entries: Seq<((u64, K), V)>,
    copies: Seq<V>,
) -> bool {
    &&& copies.len() == entries.len()
    &&& forall|i: int| 0 <= i < copies.len() ==> cloned(entries[i].1, #[trigger] copies[i])
}

/// Read access to a shard.
pub struct ShardRead<'a, K, V> {
    shard: &'a Shard<K, V>,
}

impl<'a, K: Eq, V> ShardRead<'a, K, V> {
    /// The shard that is read.
    pub closed spec fn shard(&self) -> Shard<K, V> {
        *self.shard
    }

    /// Gives read access to `shard`.
    pub fn new(shard: &'a Shard<K, V>) -> (read: Self)
        ensures
            read.shard() == *shard,
    {
        ShardRead { shard }
    }

    /// Returns the keys and values of the shard.
    pub fn iter(&self) -> (items: Vec<(&'a K, &'a V)>)
        requires
            self.shard().wf(),
        ensures
            items@.len() == self.shard().entries().len(),
            forall|i: int|
                0 <= i < items@.len() ==> *(#[trigger] items@[i]).0
                    == self.shard().entries()[i].0.1 && *items@[i].1 == self.shard().entries()[i].1,
    {
        let mut items: Vec<(&'a K, &'a V)> = Vec::new();
        let len: usize = self.shard.len();
        while items.len() < len
            invariant
                len == self.shard().entries().len(),
                items@.len() <= len,
                forall|i: int|
                    0 <= i < items@.len() ==> *(#[trigger] items@[i]).0
                        == self.shard().entries()[i].0.1 && *items@[i].1
                        == self.shard().entries()[i].1,
            decreases len - items@.len(),
        {
            items.push(self.shard.entry_at(items.len()));
        }
        items
    }

    /// Returns the keys of the shard.
    pub fn keys(&self) -> (keys: Vec<&'a K>)
        requires
            self.shard().wf(),
        ensures
            keys@.len() == self.shard().entries().len(),
            forall|i: int|
                0 <= i < keys@.len() ==> *(#[trigger] keys@[i]) == self.shard().entries()[i].0.1,
    {
        let mut keys: Vec<&'a K> = Vec::new();
        let len: usize = self.shard.len();
        while keys.len() < len
            invariant
                len == self.shard().entries().len(),
                keys@.len() <= len,
                forall|i: int|
                    0 <= i < keys@.len() ==> *(#[trigger] keys@[i])
                        == self.shard().entries()[i].0.1,
            decreases len - keys@.len(),
        {
            keys.push(self.shard.entry_at(keys.len()).0);
        }
        keys
    }

    /// Returns the values of the shard.
    pub fn values(&self) -> (values: Vec<&'a V>)
        requires
            self.shard().wf(),
        ensures
            values@.len() == self.shard().entries().len(),
            forall|i: int|
                0 <= i < values@.len() ==> *(#[trigger] values@[i]) == self.shard().entries()[i].1,
    {
        let mut values: Vec<&'a V> = Vec::new();
        let len: usize = self.shard.len();
        while values.len() < len
            invariant
                len == self.shard().entries().len(),
                values@.len() <= len,
                forall|i: int|
                    0 <= i < values@.len() ==> *(#[trigger] values@[i])
                        == self.shard().entries()[i].1,
            decreases len - values@.len(),
        {
            values.push(self.shard.entry_at(values.len()).1);
        }
        values
    }

    /// Returns the number of entries in the shard.
    pub fn len(&self) -> (len: usize)
        requires
            self.shard().wf(),
        ensures
            len == self.shard().entries().len(),
            lawful_key::<K>() ==> len == self.shard()@.len(),
    {
        self.shard.len()
    }

    /// Returns `true` if the shard has no entry.
    pub fn is_empty(&self) -> (empty: bool)
        requires
            self.shard().wf(),
        ensures
            empty == (self.shard().entries().len() == 0),
            empty == (self.shard()@ == Map::<(u64, K), V>::empty()),
    {
        self.shard.is_empty()
    }

    /// Returns clones of the keys and values of the shard.
    pub fn owned_entries(&self) -> (items: Vec<(K, V)>) where K: Clone, V: Clone
        requires
            self.shard().wf(),
        ensures
            clones_of(self.shard().entries(), items@),
    {
        let mut items: Vec<(K, V)> = Vec::new();
        let len: usize = self.shard.len();
        while items.len() < len
            invariant
                len == self.shard().entries().len(),
                items@.len() <= len,
                clones_of(self.shard().entries().take(items@.len() as int), items@),
            decreases len - items@.len(),
        {
            let ghost before = items@;
            let (k, v) = self.shard.entry_at(items.len());
            items.push((k.clone(), v.clone()));
            assert forall|i: int| 0 <= i < items@.len() implies cloned(
                self.shard().entries()[i].0.1,
                (#[trigger] items@[i]).0,
            ) && cloned(self.shard().entries()[i].1, items@[i].1) by {
                if i < before.len() {
                    assert(items@[i] == before[i]);
                }
            }
        }
        assert(self.shard().entries().take(len as int) =~= self.shard().entries());
        items
    }

    /// Returns clones of the keys of the shard.
    pub fn owned_keys(&self) -> (keys: Vec<K>) where K: Clone
        requires
            self.shard().wf(),
        ensures
            key_clones_of(self.shard().entries(), keys@),
    {
        let mut keys: Vec<K> = Vec::new();
        let len: usize = self.shard.len();
        while keys.len() < len
            invariant
                len == self.shard().entries().len(),
                keys@.len() <= len,
                key_clones_of(self.shard().entries().take(keys@.len() as int), keys@),
            decreases len - keys@.len(),
        {
            let ghost before = keys@;
            keys.push(self.shard.entry_at(keys.len()).0.clone());
            assert forall|i: int| 0 <= i < keys@.len() implies cloned(
                self.shard().entries()[i].0.1,
                #[trigger] keys@[i],
            ) by {
                if i < before.len() {
                    assert(keys@[i] == before[i]);
                }
            }
        }
        assert(self.shard().entries().take(len as int) =~= self.shard().entries());
        keys
    }

    /// Returns clones of the values of the shard.
    pub fn owned_values(&self) -> (values: Vec<V>) where V: Clone
        requires
            self.shard().wf(),
        ensures
            value_clones_of(self.shard().entries(), values@),
    {
        let mut values: Vec<V> = Vec::new();
        let len: usize = self.shard.len();
        while values.len() < len
            invariant
                len == self.shard().entries().len(),
                values@.len() <= len,
                value_clones_of(self.shard().entries().take(values@.len() as int), values@),
            decreases len - values@.len(),
        {
            let ghost before = values@;
            values.push(self.shard.entry_at(values.len()).1.clone());
            assert forall|i: int| 0 <= i < values@.len() implies cloned(
                self.shard().entries()[i].1,
                #[trigger] values@[i],
            ) by {
                if i < before.len() {
                    assert(values@[i] == before[i]);
                }
            }
        }
        assert(self.shard().entries().take(len as int) =~= self.shard().entries());
        values
    }
}

} // verus!
