//! The hash table that finds the slot of a key.
use crate::index::Index;
use hashbrown::HashTable;
use vstd::prelude::*;

verus! {

/// hashbrown's `HashTable`, filled with slot numbers.
#[verifier::external_body]
pub struct KeyTable {
    table: HashTable<Index>,
}

/// What a table holds: each slot number with the hash it was inserted with.
pub uninterp spec fn table_contents(table: KeyTable) -> Map<Index, u64>;

impl View for KeyTable {
    type V = Map<Index, u64>;

    #[verifier::inline]
    open spec fn view(&self) -> Map<Index, u64> {
        table_contents(*self)
    }
}

impl KeyTable {
    /// `HashTable::with_capacity`: an empty table. It allocates at once, so a capacity that exceeds
    /// the memory ends the program.
    #[verifier::external_body]
    pub(crate) fn with_capacity(capacity: usize) -> (table: Self)
        requires
            capacity <= u32::MAX,
        ensures
            (table_contents(table) == Map::<Index, u64>::empty()),
    {
        KeyTable { table: HashTable::with_capacity(capacity) }
    }

    /// `HashTable::find`: looks for an element that `eq` accepts. It tries every element inserted
    /// with `hash`, and may try others, until one is accepted.
    #[verifier::external_body]
    pub(crate) fn find<F: Fn(&Index) -> bool>(&self, hash: u64, eq: F) -> (found: Option<Index>)
        requires
            forall|idx: Index|
                table_contents(*self).contains_key(idx) ==> #[trigger] call_requires(eq, (&idx,)),
        ensures
            found matches Some(idx) ==> table_contents(*self).contains_key(idx) && call_ensures(
                eq,
                (&idx,),
                true,
            ),
            found is None ==> forall|idx: Index| #[trigger]
                table_contents(*self).contains_key(idx) && table_contents(*self)[idx] == hash
                    ==> call_ensures(eq, (&idx,), false),
    {
        self.table.find(hash, eq).copied()
    }

    /// `HashTable::insert_unique`: adds an element without looking for an equal one. Where the table
    /// is enlarged, `hasher` has to give back the hash that each element was inserted with.
    #[verifier::external_body]
    pub(crate) fn insert_unique<F: Fn(&Index) -> u64>(&mut self, hash: u64, idx: Index, hasher: F)
        requires
            !table_contents(*old(self)).contains_key(idx),
            forall|other: Index|
                table_contents(*old(self)).contains_key(other) ==> #[trigger] call_requires(
                    hasher,
                    (&other,),
                ),
            forall|other: Index, h: u64|
                table_contents(*old(self)).contains_key(other) && #[trigger] call_ensures(
                    hasher,
                    (&other,),
                    h,
                ) ==> h == table_contents(*old(self))[other],
        ensures
            table_contents(*final(self)) == table_contents(*old(self)).insert(idx, hash),
    {
        self.table.insert_unique(hash, idx, hasher);
    }

    /// `HashTable::find_entry`, then `OccupiedEntry::remove` on what it found: takes out an element
    /// that `eq` accepts, looked for as in `find`.
    #[verifier::external_body]
    pub(crate) fn remove<F: Fn(&Index) -> bool>(&mut self, hash: u64, eq: F) -> (removed: Option<
        Index,
    >)
        requires
            forall|idx: Index|
                table_contents(*old(self)).contains_key(idx) ==> #[trigger] call_requires(
                    eq,
                    (&idx,),
                ),
        ensures
            removed matches Some(idx) ==> table_contents(*old(self)).contains_key(idx)
                && call_ensures(eq, (&idx,), true) && table_contents(*final(self))
                == table_contents(*old(self)).remove(idx),
            removed is None ==> table_contents(*final(self)) == table_contents(*old(self))
                && forall|idx: Index| #[trigger]
                table_contents(*old(self)).contains_key(idx) && table_contents(*old(self))[idx]
                    == hash ==> call_ensures(eq, (&idx,), false),
    {
        match self.table.find_entry(hash, eq) {
            Ok(slot) => Some(slot.remove().0),
            Err(_) => None,
        }
    }

    /// `HashTable::clear`: takes all elements out.
    #[verifier::external_body]
    pub(crate) fn clear(&mut self)
        ensures
            (table_contents(*final(self)) == Map::<Index, u64>::empty()),
    {
        self.table.clear();
    }
}

impl Clone for KeyTable {
    /// `HashTable::clone`: a table with the same elements under the same hashes.
    #[verifier::external_body]
    fn clone(&self) -> (copy: Self)
        ensures
            table_contents(copy) == table_contents(*self),
    {
        KeyTable { table: self.table.clone() }
    }
}

} // verus!
