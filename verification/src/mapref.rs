//! References to the entries of a map.
use vstd::prelude::*;

verus! {

/// A reference to an entry.
pub struct MapRef<'a, K, V> {
    pub key: &'a K,
    pub value: &'a V,
}

impl<'a, K, V> MapRef<'a, K, V> {
    /// Returns the key of the entry.
    pub fn key(&self) -> (key: &K)
        ensures
            *key == *self.key,
    {
        self.key
    }

    /// Returns the value of the entry.
    pub fn value(&self) -> (value: &V)
        ensures
            *value == *self.value,
    {
        self.value
    }
}

/// A mutable reference to an entry.
pub struct MapRefMut<'a, K, V> {
    pub key: &'a K,
    pub value: &'a mut V,
}

impl<'a, K, V> MapRefMut<'a, K, V> {
    /// Returns the key of the entry.
    pub fn key(&self) -> (key: &K)
        ensures
            *key == *self.key,
    {
        self.key
    }

    /// Returns the value of the entry.
    pub fn value(&self) -> (value: &V)
        ensures
            *value == *old(self.value),
    {
        &*self.value
    }

    /// Returns the value of the entry, to be changed.
    pub fn value_mut(&mut self) -> (value: &mut V)
        ensures
            *value == *old(self).value,
            *final(self).key == *old(self).key,
            *final(self).value == *final(value),
            *final(final(self).value) == *final(old(self).value),
    {
        &mut *self.value
    }
}

} // verus!
