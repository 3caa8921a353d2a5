//! The entries of a cache, as they lie in their slots.
use crate::index::Index;
use vstd::prelude::*;

verus! {

/// A key with its value, and the hash that the table knows it by.
pub struct CacheEntry<K, V> {
    pub key: K,
    pub value: V,
    pub hash: u64,
}

/// The slot is filled.
pub open spec fn live<K, V>(entries: Seq<Option<CacheEntry<K, V>>>, idx: Index) -> bool {
    idx < entries.len() && entries[idx as int] is Some
}

/// The key in a filled slot.
pub open spec fn key_at<K, V>(entries: Seq<Option<CacheEntry<K, V>>>, idx: Index) -> K {
    entries[idx as int]->0.key
}

/// The value in a filled slot.
pub open spec fn value_at<K, V>(entries: Seq<Option<CacheEntry<K, V>>>, idx: Index) -> V {
    entries[idx as int]->0.value
}

/// The hash in a filled slot.
pub open spec fn hash_at<K, V>(entries: Seq<Option<CacheEntry<K, V>>>, idx: Index) -> u64 {
    entries[idx as int]->0.hash
}

/// The keys and values of some filled slots.
pub open spec fn pairs_of<K, V>(
    entries: Seq<Option<CacheEntry<K, V>>>,
    order: Seq<Index>,
) -> Seq<(K, V)> {
    Seq::new(order.len(), |p: int| (key_at(entries, order[p]), value_at(entries, order[p])))
}

} // verus!
