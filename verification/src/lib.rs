//! Least Frequently Used Cache with a lightweight API.
//!
//! Entries that are the least frequently interacted with are evicted from the cache when it
//! reaches capacity or when the user manually evicts them.
//!
//! In the case where eviction candidates are tied, a Least Recently Used policy is applied to
//! select the appropriate candidate.
//!
//! # Aging
//!
//! An optional aging mechanism is also employed to prevent cache pollution in the case where certain
//! entries are extremely hot and essentially become irrelevant.
//!
//! Any operation which interacts with an existing value (that isn't peeking or iterating) will
//! tick up the operations counter if an aging value is set. So does putting a new key, as one
//! operation, whether or not an entry is evicted for it. A miss does not.
//!
//! Once that threshold is met, ALL entries in the cache will have their frequency tracking value
//! halved, down to one at least. Entries that are tied from then on go by their last use, as all
//! others do.
//!
//! # Contracts
//!
//! A cache is modelled by [`model::LfuView`]: its entries in the order of insertion, and its keys in
//! the order of their last use with their counts, which make the eviction order. The contract of each
//! operation gives the state that it leads to, and [`laws`] states what holds of these states.
mod cache;
mod entry;
mod freq;
mod index;
mod iter;
pub mod keys;
pub mod laws;
pub mod model;
mod order;
pub mod ranking;
mod table;

pub use cache::{clamped, clones_exactly, LfuCache, DEFAULT_CAPACITY, MAX_CAPACITY};
pub use freq::FreqSlot;
pub use iter::{
    borrowed, borrowed_keys, borrowed_values, IntoIter, Iter, IterMut, Keys, Values, ValuesMut,
};
