//! The index of a shard: a `hashbrown::HashTable` that files slot numbers under
//! hashes.
use hashbrown::HashTable;
use vstd::multiset::Multiset;
use vstd::prelude::*;

verus! {

/// The largest capacity a [`SlotTable`] is made with. Up to it the table asks for
/// no more than `isize::MAX` bytes.
pub const MAX_CAPACITY: usize = usize::MAX / 37;

/// The largest number of slots a [`SlotTable`] is filled with. Growing doubles the
/// table, so this is half of [`MAX_CAPACITY`].
pub const MAX_ENTRIES: usize = usize::MAX / 74;

/// A `hashbrown::HashTable` of slot numbers.
#[verifier::external_body]
pub struct SlotTable {
    inner: HashTable<usize>,
}

/// The slots in `table`, each with the hash it was filed under.
pub uninterp spec fn filed(table: SlotTable) -> Multiset<(u64, usize)>;

/// The capacity that `table` was made with.
pub uninterp spec fn made_for(table: SlotTable) -> nat;

impl SlotTable {
    /// `HashTable::with_capacity`: an empty table, made to hold `capacity` slots.
    #[verifier::external_body]
    pub(crate) fn with_capacity(capacity: usize) -> (table: SlotTable)
        requires
            capacity <= MAX_CAPACITY,
        ensures
            filed(table) == Multiset::<(u64, usize)>::empty(),
            made_for(table) == capacity,
    {
        SlotTable { inner: HashTable::with_capacity(capacity) }
    }

    /// `HashTable::find`: some slot of the table that `eq` accepts, or `None` if
    /// `eq` rejects every slot filed under `hash`. The table may also try slots
    /// filed under another hash.
    #[verifier::external_body]
    pub(crate) fn find<E: Fn(&usize) -> bool>(&self, hash: u64, eq: E) -> (found: Option<usize>)
        requires
            forall|h: u64, s: usize|
                #[trigger] filed(*self).contains((h, s)) ==> call_requires(eq, (&s,)),
        ensures
            match found {
                Some(s) => call_ensures(eq, (&s,), true) && exists|h: u64|
                    #[trigger] filed(*self).contains((h, s)),
                None => forall|s: usize| #[trigger]
                    filed(*self).contains((hash, s)) ==> call_ensures(eq, (&s,), false),
            },
    {
        self.inner.find(hash, eq).copied()
    }

    /// `HashTable::insert_unique`: files `slot` under `hash`, beside what is filed
    /// there. `hasher` must give each slot the hash it is filed under.
    #[verifier::external_body]
    pub(crate) fn enter<H: Fn(&usize) -> u64>(&mut self, hash: u64, slot: usize, hasher: H)
        requires
            filed(*old(self)).len() < MAX_ENTRIES,
            forall|h: u64, s: usize|
                #[trigger] filed(*old(self)).contains((h, s)) ==> call_requires(hasher, (&s,)),
            forall|h: u64, s: usize, r: u64|
                #![trigger filed(*old(self)).contains((h, s)), call_ensures(hasher, (&s,), r)]
                filed(*old(self)).contains((h, s)) && call_ensures(hasher, (&s,), r) ==> r == h,
        ensures
            made_for(*final(self)) == made_for(*old(self)),
            filed(*final(self)) == filed(*old(self)).insert((hash, slot)),
    {
        self.inner.insert_unique(hash, slot, hasher);
    }

    /// `HashTable::find_entry` and `OccupiedEntry::remove`: takes out and returns
    /// a slot that `eq` accepts, as in [`SlotTable::find`]; where there is none,
    /// leaves the table alone.
    #[verifier::external_body]
    pub(crate) fn remove<E: Fn(&usize) -> bool>(&mut self, hash: u64, eq: E) -> (removed: Option<
        usize,
    >)
        requires
            forall|h: u64, s: usize|
                #[trigger] filed(*old(self)).contains((h, s)) ==> call_requires(eq, (&s,)),
        ensures
            made_for(*final(self)) == made_for(*old(self)),
            match removed {
                Some(s) => call_ensures(eq, (&s,), true) && exists|h: u64| {
                    &&& #[trigger] filed(*old(self)).contains((h, s))
                    &&& filed(*final(self)) == filed(*old(self)).remove((h, s))
                },
                None => filed(*final(self)) == filed(*old(self)) && forall|s: usize| #[trigger]
                    filed(*old(self)).contains((hash, s)) ==> call_ensures(eq, (&s,), false),
            },
    {
        match self.inner.find_entry(hash, eq) {
            Ok(entry) => Some(entry.remove().0),
            Err(_) => None,
        }
    }

    /// `HashTable::clear`: takes out every slot.
    #[verifier::external_body]
    pub(crate) fn clear(&mut self)
        ensures
            filed(*final(self)) == Multiset::<(u64, usize)>::empty(),
            made_for(*final(self)) == made_for(*old(self)),
    {
        self.inner.clear()
    }
}

} // verus!
