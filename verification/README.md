# lfu-light

A lightweight Least Frequently Used cache, verified with Verus.

```rust
use lfu_light::LfuCache;

let mut lfu = LfuCache::with_capacity(2);
lfu.put("apple", 1);
lfu.put("banana", 2);
assert_eq!(lfu.get("apple"), Some(&1));

// Banana is least frequently used so is evicted
lfu.put("orange", 3);
assert!(lfu.get("banana").is_none());
```

## What is proved

A cache is modelled by `LfuView` (`src/model.rs`): its entries in the order of insertion, and its keys
in the order of their last use, each with its count of uses. The eviction order goes by count, and for
equal counts by last use. The contract of each operation of `LfuCache` gives the view that it leads to
and what it returns. `src/laws.rs` states what follows for all caches: that the capacity is kept, that
what is put is what is read, that the victim is the least frequently and then the least recently used
entry, how counts age.

These contracts hold of keys that can be told apart and found. `LfuCache::coherent` says that the key
type keeps to what `Eq` and `Hash` promise, and the hash builder to what `BuildHasher` promises.
`LfuCache::finds` adds what a lookup by a borrowed key needs: that the borrowed type keeps to what `Eq`
promises, and that no two keys have a borrowed form in common. Of a key looked up by its own type this
is always so. `LfuCache::wf` holds of every cache, whatever its keys do; of keys that cannot be told
apart the contracts say that an operation finds no entry or some one entry, and what it then does to it.

A count has 64 bits. An operation that would raise a count beyond them is excluded by its contract
(`LfuCache::can_use`).

## Layout

| file | |
| --- | --- |
| `cache.rs` | `LfuCache` and its contracts |
| `iter.rs` | iterators, in insertion order |
| `model.rs`, `laws.rs` | the view of a cache, and laws about it |
| `ranking.rs` | uses and the eviction order as sequences |
| `freq.rs` | the eviction order as lists of lists, beside the order of last use |
| `order.rs` | slots in a row: the order of insertion, and that of last use |
| `entry.rs`, `index.rs` | slots and their numbers |
| `table.rs`, `keys.rs` | the hash table, and keys: all that is trusted of hashbrown and of the key types |
