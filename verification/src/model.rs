//! What a cache is, as a mathematical value.
use crate::keys::key_is;
use crate::ranking::{aged, distinct, filed, ranked, reused, Rank};
use vstd::prelude::*;

verus! {

/// The entry at position `i` has the key.
pub open spec fn keyed<K, V, Q: ?Sized>(pairs: Seq<(K, V)>, i: int, key: &Q) -> bool {
    0 <= i < pairs.len() && key_is(pairs[i].0, key)
}

/// Where the key stands among the entries.
pub open spec fn index_in<K, V, Q: ?Sized>(pairs: Seq<(K, V)>, key: &Q) -> int {
    choose|i: int| #[trigger] keyed(pairs, i, key)
}

/// Position `r` of the uses, or of the eviction order, has the key.
pub open spec fn rank_keyed<K, Q: ?Sized>(ranks: Seq<Rank<K>>, r: int, key: &Q) -> bool {
    0 <= r < ranks.len() && key_is(ranks[r].item, key)
}

/// Where the key stands among the uses, or in the eviction order.
pub open spec fn rank_in<K, Q: ?Sized>(ranks: Seq<Rank<K>>, key: &Q) -> int {
    choose|r: int| #[trigger] rank_keyed(ranks, r, key)
}

/// Times of last use, once the key has been used at time `now`.
pub open spec fn used_now<K>(last: spec_fn(K) -> nat, key: K, now: nat) -> spec_fn(K) -> nat {
    |k: K|
        if k == key {
            now
        } else {
            last(k)
        }
}

/// The state of a cache.
#[verifier::ext_equal]
pub struct LfuView<K, V> {
    /// How many entries fit.
    pub capacity: nat,
    /// After how many operations all counts are halved, if ever.
    pub interval: Option<nat>,
    /// The operations since the counts were last halved.
    pub ops: nat,
    /// The entries in the order in which their keys were inserted.
    pub pairs: Seq<(K, V)>,
    /// The keys in the order of their last use, each with its count of uses.
    pub uses: Seq<Rank<K>>,
}

impl<K, V> LfuView<K, V> {
    /// The cache without entries.
    pub open spec fn fresh(capacity: nat, interval: Option<nat>) -> Self {
        LfuView { capacity, interval, ops: 0, pairs: Seq::empty(), uses: Seq::empty() }
    }

    /// The keys in the order in which they would be evicted: by count, and for equal counts by last
    /// use.
    pub open spec fn ranks(self) -> Seq<Rank<K>> {
        filed(self.uses)
    }

    /// There is an entry with the key.
    pub open spec fn contains<Q: ?Sized>(self, key: &Q) -> bool {
        exists|i: int| #[trigger] keyed(self.pairs, i, key)
    }

    /// Where the key stands among the entries.
    pub open spec fn index_of<Q: ?Sized>(self, key: &Q) -> int {
        index_in(self.pairs, key)
    }

    /// Where the key stands among the uses.
    pub open spec fn use_of<Q: ?Sized>(self, key: &Q) -> int {
        rank_in(self.uses, key)
    }

    /// Where the key stands in the eviction order.
    pub open spec fn rank_of<Q: ?Sized>(self, key: &Q) -> int {
        rank_in(self.ranks(), key)
    }

    /// The value of the key.
    pub open spec fn value_of<Q: ?Sized>(self, key: &Q) -> V {
        self.pairs[self.index_of(key)].1
    }

    /// Position `i` among the entries and position `u` among the uses have the same key.
    pub open spec fn same_entry(self, i: int, u: int) -> bool {
        &&& 0 <= i < self.pairs.len()
        &&& 0 <= u < self.uses.len()
        &&& self.pairs[i].0 == self.uses[u].item
    }

    /// How often the key has been used.
    pub open spec fn count_of<Q: ?Sized>(self, key: &Q) -> nat {
        self.uses[self.use_of(key)].count
    }

    /// The highest count of all.
    pub open spec fn peak(self) -> nat {
        if self.uses.len() == 0 {
            0
        } else {
            self.ranks().last().count
        }
    }

    /// The count of the key can be raised.
    pub open spec fn can_count<Q: ?Sized>(self, key: &Q) -> bool {
        forall|u: int| #[trigger] rank_keyed(self.uses, u, key) ==> self.uses[u].count < u64::MAX
    }

    /// With the counts of all entries halved, down to one at least.
    pub open spec fn with_aged_counts(self) -> Self {
        LfuView { ops: 0, uses: aged(self.uses), ..self }
    }

    /// The next operation ends an interval.
    pub open spec fn ages(self) -> bool {
        self.interval matches Some(interval) && self.ops + 1 >= interval
    }

    /// One operation later: where an interval is set, the operation is counted, and at the end of the
    /// interval all counts are halved.
    pub open spec fn ticked(self) -> Self {
        match self.interval {
            None => self,
            Some(interval) => if self.ops + 1 >= interval {
                self.with_aged_counts()
            } else {
                LfuView { ops: self.ops + 1, ..self }
            },
        }
    }

    /// Some operations later.
    pub open spec fn ticked_times(self, times: nat) -> Self
        decreases times,
    {
        if times == 0 {
            self
        } else {
            self.ticked_times((times - 1) as nat).ticked()
        }
    }

    /// After one more use of the key at position `u` of the uses.
    pub open spec fn used_at(self, u: int) -> Self {
        LfuView { uses: reused(self.uses, u), ..self }.ticked()
    }

    /// After one more use of the key.
    pub open spec fn used<Q: ?Sized>(self, key: &Q) -> Self {
        self.used_at(self.use_of(key))
    }

    /// With another value at position `i` of the entries.
    pub open spec fn with_value_at(self, i: int, value: V) -> Self {
        LfuView { pairs: self.pairs.update(i, (self.pairs[i].0, value)), ..self }
    }

    /// With another value under the key.
    pub open spec fn with_value<Q: ?Sized>(self, key: &Q, value: V) -> Self {
        self.with_value_at(self.index_of(key), value)
    }

    /// Without position `i` of the entries and position `u` of the uses.
    pub open spec fn without_at(self, i: int, u: int) -> Self {
        LfuView { pairs: self.pairs.remove(i), uses: self.uses.remove(u), ..self }
    }

    /// Without the key.
    pub open spec fn without<Q: ?Sized>(self, key: &Q) -> Self {
        self.without_at(self.index_of(key), self.use_of(key))
    }

    /// The key that is next in the eviction order.
    pub open spec fn victim(self) -> K {
        self.ranks()[0].item
    }

    /// Without the key that is next in the eviction order.
    pub open spec fn evicted(self) -> Self {
        self.without(&self.victim())
    }

    /// With a new key, which has been used once.
    pub open spec fn with_new(self, key: K, value: V) -> Self {
        LfuView {
            pairs: self.pairs.push((key, value)),
            uses: self.uses.push(Rank { item: key, count: 1 }),
            ..self
        }
    }

    /// Room for one more entry, made by eviction where the cache is full.
    pub open spec fn with_room(self) -> Self {
        if self.pairs.len() >= self.capacity {
            self.evicted()
        } else {
            self
        }
    }

    /// After the value has been put under the key: a use of the key where it is there, and otherwise
    /// an insertion, for which a full cache evicts an entry first.
    pub open spec fn put(self, key: K, value: V) -> Self {
        if self.contains(&key) {
            self.with_value(&key, value).used(&key)
        } else {
            self.with_room().with_new(key, value).ticked()
        }
    }

    /// Without any entry.
    pub open spec fn cleared(self) -> Self {
        Self::fresh(self.capacity, self.interval)
    }

    /// The times of last use, which `last` gives, are those that the cache goes by.
    pub open spec fn by_recency(self, last: spec_fn(K) -> nat) -> bool {
        forall|u: int, w: int|
            0 <= u < w < self.uses.len() ==> last((#[trigger] self.uses[u]).item) < last(
                (#[trigger] self.uses[w]).item,
            )
    }

    /// No key has been used at time `now` or later.
    pub open spec fn all_before(self, last: spec_fn(K) -> nat, now: nat) -> bool {
        forall|u: int| 0 <= u < self.uses.len() ==> last((#[trigger] self.uses[u]).item) < now
    }

    /// What holds of every cache whose keys can be told apart.
    pub open spec fn valid(self) -> bool {
        &&& 1 <= self.capacity
        &&& self.pairs.len() <= self.capacity
        &&& self.uses.len() == self.pairs.len()
        &&& forall|i: int, j: int|
            0 <= i < self.pairs.len() && 0 <= j < self.pairs.len() && i != j ==> (
            #[trigger] self.pairs[i]).0 != (#[trigger] self.pairs[j]).0
        &&& distinct(self.uses)
        &&& forall|u: int|
            0 <= u < self.uses.len() ==> 1 <= (#[trigger] self.uses[u]).count <= u64::MAX
        &&& forall|i: int|
            0 <= i < self.pairs.len() ==> ranked(self.uses, (#[trigger] self.pairs[i]).0)
        &&& forall|u: int|
            0 <= u < self.uses.len() ==> self.contains(&(#[trigger] self.uses[u]).item)
        &&& match self.interval {
            Some(interval) => self.ops < interval,
            None => self.ops == 0,
        }
    }
}

} // verus!
