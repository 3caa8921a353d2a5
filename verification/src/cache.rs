//! The cache itself.
use crate::entry::{hash_at, key_at, live, pairs_of, value_at, CacheEntry};
use crate::freq::FreqList;
use crate::index::{Index, NULL_IDX};
use crate::iter::{IntoIter, Iter, IterMut, Keys, Values, ValuesMut};
use crate::keys::{
    borrow_key, borrows_apart, default_hash_builder, digest_of, hash_key, key_is,
    lemma_borrows_itself_apart, may_hash_to, valid_builder,
};
use crate::laws::law_read_back;
use crate::model::{keyed, rank_keyed, LfuView};
use crate::order::SlotOrder;
use crate::ranking::{
    aged, filed, lemma_filed_distinct, lemma_filed_from, lemma_filed_rising, lemma_filed_to,
    lemma_pushed_ranked, lemma_removed_ranked, lemma_renamed_filed, lemma_reused_distinct, ranked,
    renamed, reused, rising, Rank,
};
use crate::table::KeyTable;
use core::borrow::Borrow;
use core::hash::{BuildHasher, Hash};
use hashbrown::DefaultHashBuilder;
use vstd::prelude::*;
use vstd::std_specs::cmp::PartialEqSpec;
use vstd::std_specs::hash::{builds_valid_hashers, obeys_key_model};

verus! {

/// The capacity of a cache that is made without one.
pub const DEFAULT_CAPACITY: usize = 128;

/// The highest number that a slot can have.
pub const MAX_CAPACITY: usize = 0xffff_fffe;

/// Least Frequently Used Cache
///
/// Upon cache hitting capacity, new entries will evict the entry with the least
/// frequent access.
///
/// In the case an entry is tied for the least frequent accesses, a least recently used
/// policy is enacted.
pub struct LfuCache<K, V, S = DefaultHashBuilder> {
    len: usize,
    capacity: usize,
    age_interval: Option<usize>,
    op_counter: usize,
    key_map: KeyTable,
    entries: Vec<Option<CacheEntry<K, V>>>,
    hasher: S,
    free_slots: Vec<Index>,
    freq: FreqList,
    arrivals: SlotOrder,
}

impl<K, V, S> View for LfuCache<K, V, S> {
    type V = LfuView<K, V>;

    closed spec fn view(&self) -> LfuView<K, V> {
        LfuView {
            capacity: self.capacity as nat,
            interval: match self.age_interval {
                Some(interval) => Some(interval as nat),
                None => None,
            },
            ops: self.op_counter as nat,
            pairs: pairs_of(self.entries@, self.arrivals.order()),
            uses: renamed(self.freq.uses(), self.naming()),
        }
    }
}

/// Taking a slot out of an order leaves the others.
proof fn lemma_removed_contains(order: Seq<Index>, p: int, idx: Index)
    requires
        order.no_duplicates(),
        0 <= p < order.len(),
    ensures
        order.remove(p).contains(idx) <==> order.contains(idx) && idx != order[p],
{
    let rest = order.remove(p);
    if rest.contains(idx) {
        let q = choose|q: int| 0 <= q < rest.len() && rest[q] == idx;
        assert(order[if q < p {
            q
        } else {
            q + 1
        }] == idx);
    }
    if order.contains(idx) && idx != order[p] {
        let q = choose|q: int| 0 <= q < order.len() && order[q] == idx;
        assert(rest[if q < p {
            q
        } else {
            q - 1
        }] == idx);
    }
}

/// The highest count is the highest of all.
proof fn lemma_peak<K, V>(view: LfuView<K, V>)
    ensures
        forall|u: int| 0 <= u < view.uses.len() ==> (#[trigger] view.uses[u]).count <= view.peak(),
{
    lemma_filed_rising(view.uses);
    assert forall|u: int| 0 <= u < view.uses.len() implies (#[trigger] view.uses[u]).count
        <= view.peak() by {
        let r = lemma_filed_to(view.uses, u);
        assert(view.ranks()[r].count <= view.ranks()[view.uses.len() - 1].count);
    }
}

/// The highest count is one of those that there are.
proof fn lemma_peak_bound<K, V>(view: LfuView<K, V>, bound: nat)
    requires
        forall|u: int| 0 <= u < view.uses.len() ==> (#[trigger] view.uses[u]).count <= bound,
    ensures
        view.peak() <= bound,
{
    lemma_filed_rising(view.uses);
    if view.uses.len() > 0 {
        let u = lemma_filed_from(view.uses, view.uses.len() - 1);
        assert(view.uses[u].count <= bound);
    }
}

/// A use raises the highest count by one at most.
proof fn lemma_reused_peak<K, V>(view: LfuView<K, V>, u: int)
    requires
        0 <= u < view.uses.len(),
    ensures
        (LfuView { uses: reused(view.uses, u), ..view }).peak() <= view.peak() + 1,
{
    lemma_peak(view);
    let after = LfuView { uses: reused(view.uses, u), ..view };
    assert forall|w: int| 0 <= w < after.uses.len() implies (#[trigger] after.uses[w]).count
        <= view.peak() + 1 by {
        if w < view.uses.len() - 1 {
            assert(after.uses[w] == view.uses[if w < u {
                w
            } else {
                w + 1
            }]);
        } else {
            assert(view.uses[u].count <= view.peak());
        }
    }
    lemma_peak_bound(after, view.peak() + 1);
}

/// Taking a key out raises no count.
proof fn lemma_removed_peak<K, V>(view: LfuView<K, V>, after: LfuView<K, V>, u: int)
    requires
        0 <= u < view.uses.len(),
        after.uses == view.uses.remove(u),
    ensures
        after.peak() <= view.peak(),
{
    lemma_peak(view);
    assert forall|w: int| 0 <= w < after.uses.len() implies (#[trigger] after.uses[w]).count
        <= view.peak() by {
        assert(after.uses[w] == view.uses[if w < u {
            w
        } else {
            w + 1
        }]);
    }
    lemma_peak_bound(after, view.peak());
}

/// A new key has been used once.
proof fn lemma_new_peak<K, V>(view: LfuView<K, V>, key: K, value: V)
    ensures
        view.with_new(key, value).peak() <= view.peak() + 1,
{
    lemma_peak(view);
    let after = view.with_new(key, value);
    assert forall|w: int| 0 <= w < after.uses.len() implies (#[trigger] after.uses[w]).count
        <= view.peak() + 1 by {
        if w < view.uses.len() {
            assert(after.uses[w] == view.uses[w]);
        }
    }
    lemma_peak_bound(after, view.peak() + 1);
}

/// Time alone does not raise a count.
proof fn lemma_ticked_peak<K, V>(view: LfuView<K, V>)
    requires
        forall|u: int| 0 <= u < view.uses.len() ==> 1 <= (#[trigger] view.uses[u]).count,
    ensures
        view.ticked().peak() <= view.peak(),
{
    lemma_peak(view);
    let after = view.ticked();
    assert forall|w: int| 0 <= w < after.uses.len() implies (#[trigger] after.uses[w]).count
        <= view.peak() by {
        assert(view.uses[w].count <= view.peak());
    }
    lemma_peak_bound(after, view.peak());
}

/// A clone is always equal to what it was cloned from.
pub open spec fn clones_exactly<T: Clone>() -> bool {
    forall|a: T, b: T| #[trigger] cloned(a, b) ==> a == b
}

/// A slot holds clones of what another holds, filed under the same digest.
spec fn entry_cloned<K: Clone, V: Clone>(
    from: Option<CacheEntry<K, V>>,
    to: Option<CacheEntry<K, V>>,
) -> bool {
    match from {
        Some(from) => {
            &&& to matches Some(to)
            &&& cloned(from.key, to.key)
            &&& cloned(from.value, to.value)
            &&& from.hash == to.hash
        },
        None => to is None,
    }
}

impl<K, V, S> LfuCache<K, V, S> {
    /// From slots to keys.
    spec fn naming(&self) -> spec_fn(Index) -> K {
        |idx: Index| key_at(self.entries@, idx)
    }

    /// The hash builder.
    pub closed spec fn hasher(&self) -> S {
        self.hasher
    }

    /// The invariant: the table, both lists and the free slots agree on which slots are filled.
    pub closed spec fn wf(&self) -> bool {
        &&& 1 <= self.capacity <= MAX_CAPACITY / 2
        &&& self.slots_agree()
        &&& match self.age_interval {
            Some(interval) => self.op_counter < interval,
            None => self.op_counter == 0,
        }
    }

    /// What the invariant says of the slots.
    spec fn slots_agree(&self) -> bool {
        &&& self.freq.wf()
        &&& self.arrivals.wf()
        &&& self.freq.slots() == self.entries@.len()
        &&& self.arrivals.slots() == self.entries@.len()
        &&& self.entries@.len() == self.len + self.free_slots@.len()
        &&& self.entries@.len() <= self.capacity
        &&& self.arrivals.order().len() == self.len
        &&& self.freq.uses().len() == self.len
        &&& forall|i: Index| #[trigger]
            live(self.entries@, i) <==> self.arrivals.order().contains(i)
        &&& forall|i: Index| #[trigger] live(self.entries@, i) <==> ranked(self.freq.uses(), i)
        &&& forall|i: Index| #[trigger]
            live(self.entries@, i) <==> self.key_map@.contains_key(i)
        &&& forall|i: Index| #[trigger]
            live(self.entries@, i) ==> self.key_map@[i] == hash_at(self.entries@, i)
        &&& self.free_slots@.no_duplicates()
        &&& forall|j: int|
            0 <= j < self.free_slots@.len() ==> (#[trigger] self.free_slots@[j])
                < self.entries@.len() && !live(self.entries@, self.free_slots@[j])
    }

    /// The entry in a filled slot.
    fn fetch_entry(&self, idx: Index) -> (entry: &CacheEntry<K, V>)
        requires
            live(self.entries@, idx),
        ensures
            Some(*entry) == self.entries@[idx as int],
    {
        self.entries[idx as usize].as_ref().expect("hash implies an entry is present")
    }

    /// The entry in a filled slot, to be changed.
    fn fetch_entry_mut(&mut self, idx: Index) -> (entry: &mut CacheEntry<K, V>)
        requires
            live(old(self).entries@, idx),
        ensures
            Some(*entry) == old(self).entries@[idx as int],
            final(self).entries@ == old(self).entries@.update(idx as int, Some(*final(entry))),
            final(self).len == old(self).len,
            final(self).capacity == old(self).capacity,
            final(self).age_interval == old(self).age_interval,
            final(self).op_counter == old(self).op_counter,
            final(self).key_map == old(self).key_map,
            final(self).hasher == old(self).hasher,
            final(self).free_slots == old(self).free_slots,
            final(self).freq == old(self).freq,
            final(self).arrivals == old(self).arrivals,
    {
        self.entries[idx as usize].as_mut().expect("hash implies an entry is present")
    }

    /// There is no room for another entry.
    fn is_full(&self) -> (full: bool)
        requires
            self.wf(),
        ensures
            full == (self@.pairs.len() >= self@.capacity),
    {
        self.len >= self.capacity
    }

    /// Halves all counts.
    fn age(&mut self)
        requires
            old(self).slots_agree(),
        ensures
            *final(self) == (LfuCache { freq: final(self).freq, ..*old(self) }),
            final(self).slots_agree(),
            final(self)@ == (LfuView { uses: aged(old(self)@.uses), ..old(self)@ }),
    {
        self.freq.age();
        proof {
            self.lemma_same_slots(*old(self));
            assert(self@.uses =~= aged(old(self)@.uses));
        }
    }

    /// Counts an operation, and halves all counts at the end of an interval.
    fn tick(&mut self)
        requires
            old(self).wf(),
        ensures
            final(self).wf(),
            final(self).hasher == old(self).hasher,
            final(self).entries == old(self).entries,
            final(self).arrivals == old(self).arrivals,
            final(self)@ == old(self)@.ticked(),
    {
        let interval = match self.age_interval {
            Some(interval) => interval,
            None => {
                return ;
            },
        };
        self.op_counter = self.op_counter + 1;
        if self.op_counter >= interval {
            self.op_counter = 0;
            self.age();
        }
    }

    /// Other counts of the same slots keep the slots in agreement.
    proof fn lemma_same_slots(&self, before: Self)
        requires
            before.slots_agree(),
            self.freq.wf(),
            self.freq.slots() == before.freq.slots(),
            self.freq.uses().len() == before.freq.uses().len(),
            forall|r: int|
                0 <= r < before.freq.uses().len() ==> (#[trigger] self.freq.uses()[r]).item
                    == before.freq.uses()[r].item,
            *self == (LfuCache { freq: self.freq, ..before }),
        ensures
            self.slots_agree(),
    {
        assert forall|i: Index| #[trigger] live(self.entries@, i) <==> ranked(
            self.freq.uses(),
            i,
        ) by {
            assert(live(before.entries@, i) <==> ranked(before.freq.uses(), i));
            if ranked(self.freq.uses(), i) {
                let r = choose|r: int|
                    0 <= r < self.freq.uses().len() && (#[trigger] self.freq.uses()[r]).item == i;
                assert(before.freq.uses()[r].item == i);
            }
            if ranked(before.freq.uses(), i) {
                let r = choose|r: int|
                    0 <= r < before.freq.uses().len() && (#[trigger] before.freq.uses()[r]).item
                        == i;
                assert(self.freq.uses()[r].item == i);
            }
        }
    }

    /// Raises the count of a filled slot by one.
    fn bump(&mut self, idx: Index)
        requires
            old(self).wf(),
            live(old(self).entries@, idx),
            forall|u: int|
                0 <= u < old(self).freq.uses().len() && (#[trigger] old(self).freq.uses()[u]).item
                    == idx ==> old(self).freq.uses()[u].count < u64::MAX,
        ensures
            final(self).wf(),
            *final(self) == (LfuCache { freq: final(self).freq, ..*old(self) }),
            forall|u: int|
                0 <= u < old(self).freq.uses().len() && (#[trigger] old(self).freq.uses()[u]).item
                    == idx ==> final(self)@ == (LfuView {
                    uses: reused(old(self)@.uses, u),
                    ..old(self)@
                }),
    {
        let ghost uses0 = self.freq.uses();
        proof {
            assert(ranked(uses0, idx));
            self.freq.lemma_used();
        }
        let ghost u = choose|u: int| 0 <= u < uses0.len() && (#[trigger] uses0[u]).item == idx;
        self.freq.bump(idx);
        proof {
            lemma_reused_distinct(uses0, u);
            assert(self.naming() =~= old(self).naming());
            assert(self@ =~= (LfuView { uses: reused(old(self)@.uses, u), ..old(self)@ }));
        }
    }

    /// Empties a filled slot.
    #[verifier::spinoff_prover]
    #[verifier::rlimit(60)]
    fn remove_at_index(&mut self, idx: Index) -> (pair: (K, V))
        requires
            old(self).wf(),
            live(old(self).entries@, idx),
        ensures
            final(self).wf(),
            final(self).hasher == old(self).hasher,
            final(self).entries@ == old(self).entries@.update(idx as int, None),
            pair == (key_at(old(self).entries@, idx), value_at(old(self).entries@, idx)),
            forall|p: int, u: int|
                0 <= p < old(self).arrivals.order().len() && #[trigger] old(
                    self,
                ).arrivals.order()[p] == idx && 0 <= u < old(self).freq.uses().len() && (
                #[trigger] old(self).freq.uses()[u]).item == idx ==> final(self)@ == old(
                    self,
                )@.without_at(p, u),
    {
        let ghost entries0 = self.entries@;
        let ghost table0 = self.key_map@;
        let ghost uses0 = self.freq.uses();
        let ghost order0 = self.arrivals.order();
        let ghost u = choose|u: int|
            0 <= u < uses0.len() && (#[trigger] uses0[u]).item == idx;
        let ghost p = order0.index_of(idx);
        proof {
            assert(ranked(uses0, idx));
            assert(order0.contains(idx));
            self.freq.lemma_used();
            self.arrivals.lemma_order();
            assert forall|i: Index| #[trigger] table0.contains_key(i) implies live(entries0, i) by {
                assert(live(entries0, i) <==> table0.contains_key(i));
            }
        }
        self.freq.unlink(idx);
        self.arrivals.unlink(idx);
        let hash = self.fetch_entry(idx).hash;
        let same = |other: &Index| -> (same: bool)
            ensures
                same == (*other == idx),
            { *other == idx };
        let removed = self.key_map.remove(hash, same);
        assert(removed == Some(idx)) by {
            assert(table0.contains_key(idx) && table0[idx] == hash);
        }
        let entry = self.entries[idx as usize].take().expect("value should be present");
        self.free_slots.push(idx);
        self.len = self.len - 1;
        proof {
            let entries1 = self.entries@;
            let order1 = self.arrivals.order();
            let uses1 = self.freq.uses();
            assert(entries1 =~= entries0.update(idx as int, None));
            assert(order1 == order0.remove(p));
            assert(uses1 == uses0.remove(u));
            assert forall|i: Index| #[trigger] live(entries1, i) <==> order1.contains(i) by {
                assert(live(entries0, i) <==> order0.contains(i));
                lemma_removed_contains(order0, p, i);
            }
            assert forall|i: Index| #[trigger] live(entries1, i) <==> ranked(uses1, i) by {
                assert(live(entries0, i) <==> ranked(uses0, i));
                lemma_removed_ranked(uses0, u, i);
            }
            assert forall|i: Index| #[trigger] live(entries1, i) <==> self.key_map@.contains_key(
                i,
            ) by {
                assert(live(entries0, i) <==> table0.contains_key(i));
            }
            assert forall|i: Index| #[trigger] live(entries1, i) implies self.key_map@[i]
                == hash_at(entries1, i) by {
                assert(live(entries0, i));
            }
            assert(self@.pairs =~= old(self)@.pairs.remove(p)) by {
                assert forall|q: int| 0 <= q < order1.len() implies #[trigger] order1[q] != idx by {
                    assert(order1[q] == order0[if q < p { q } else { q + 1 }]);
                }
            }
            assert(self@.uses =~= old(self)@.uses.remove(u)) by {
                assert forall|q: int| 0 <= q < uses1.len() implies (#[trigger] uses1[q]).item
                    != idx by {
                    assert(uses1[q] == uses0[if q < u { q } else { q + 1 }]);
                }
            }
        }
        (entry.key, entry.value)
    }

    /// Fills a slot with a new entry.
    #[verifier::spinoff_prover]
    #[verifier::rlimit(60)]
    fn insert_entry(&mut self, entry: CacheEntry<K, V>)
        requires
            old(self).wf(),
            old(self)@.pairs.len() < old(self)@.capacity,
        ensures
            final(self).wf(),
            final(self).hasher == old(self).hasher,
            final(self)@ == old(self)@.with_new(entry.key, entry.value),
            exists|idx: Index|
                !live(old(self).entries@, idx) && #[trigger] live(final(self).entries@, idx)
                    && final(self).entries@[idx as int] == Some(entry) && forall|i: Index|
                    i != idx ==> (#[trigger] live(final(self).entries@, i) <==> live(
                        old(self).entries@,
                        i,
                    )) && (live(old(self).entries@, i) ==> final(self).entries@[i as int] == old(
                        self,
                    ).entries@[i as int]),
    {
        let ghost entries0 = self.entries@;
        let ghost table0 = self.key_map@;
        let ghost uses0 = self.freq.uses();
        let ghost order0 = self.arrivals.order();
        let ghost free0 = self.free_slots@;
        let ghost added = entry;
        let hash = entry.hash;
        let insert_idx = match self.free_slots.pop() {
            Some(idx) => {
                assert(idx == free0[free0.len() - 1]);
                self.entries[idx as usize] = Some(entry);
                idx
            },
            None => {
                self.entries.push(Some(entry));
                self.freq.grow();
                self.arrivals.grow();
                (self.entries.len() - 1) as Index
            },
        };
        let ghost entries1 = self.entries@;
        proof {
            assert(!live(entries0, insert_idx));
            assert(!table0.contains_key(insert_idx));
            assert(!ranked(uses0, insert_idx));
            assert(!order0.contains(insert_idx));
            assert forall|i: Index| #[trigger] table0.contains_key(i) implies live(entries1, i)
                && table0[i] == hash_at(entries1, i) by {
                assert(live(entries0, i));
            }
        }
        let entries = &self.entries;
        let rehash = |other: &Index| -> (hash: u64)
            requires
                live(entries@, *other),
            ensures
                hash == hash_at(entries@, *other),
            { entries[*other as usize].as_ref().expect("slot is present").hash };
        self.key_map.insert_unique(hash, insert_idx, rehash);
        self.freq.new_link(insert_idx);
        self.arrivals.push(insert_idx);
        self.len = self.len + 1;
        proof {
            assert forall|i: Index| i != insert_idx implies (#[trigger] live(entries1, i) <==> live(
                entries0,
                i,
            )) && (live(entries0, i) ==> entries1[i as int] == entries0[i as int]) by {}
            assert(live(entries1, insert_idx));
            let order1 = self.arrivals.order();
            let uses1 = self.freq.uses();
            assert forall|i: Index| #[trigger] live(entries1, i) <==> order1.contains(i) by {
                assert(live(entries0, i) <==> order0.contains(i));
                if i == insert_idx {
                    assert(order1[order0.len() as int] == i);
                } else if order0.contains(i) {
                    assert(order1[order0.index_of(i)] == i);
                } else if order1.contains(i) {
                    assert(order0[order1.index_of(i)] == i);
                }
            }
            assert forall|i: Index| #[trigger] live(entries1, i) <==> ranked(uses1, i) by {
                assert(live(entries0, i) <==> ranked(uses0, i));
                lemma_pushed_ranked(uses0, Rank { item: insert_idx, count: 1 }, i);
            }
            assert(self@.pairs =~= old(self)@.pairs.push((added.key, added.value))) by {
                assert forall|p: int| 0 <= p < order0.len() implies live(
                    entries0,
                    #[trigger] order0[p],
                ) by {
                    assert(order0.contains(order0[p]));
                }
            }
            assert(self@.uses =~= old(self)@.uses.push(Rank { item: added.key, count: 1 })) by {
                assert forall|u: int| 0 <= u < uses0.len() implies live(
                    entries0,
                    (#[trigger] uses0[u]).item,
                ) by {
                    assert(ranked(uses0, uses0[u].item));
                }
            }
        }
    }
}

/// The capacity that a cache gets where `capacity` is asked for.
pub open spec fn clamped(capacity: usize) -> nat {
    if capacity < 1 {
        1
    } else if capacity > MAX_CAPACITY / 2 {
        (MAX_CAPACITY / 2) as nat
    } else {
        capacity as nat
    }
}

impl<K, V> LfuCache<K, V> {
    /// Constructs a new cache with default capacity and default hasher
    pub fn new() -> (cache: Self)
        ensures
            cache.wf(),
            cache@ == LfuView::<K, V>::fresh(DEFAULT_CAPACITY as nat, None),
            cache@.capacity == 128,
            cache@.interval is None,
            cache@.pairs.len() == 0,
            cache@.uses.len() == 0,
            valid_builder(&cache.hasher()),
            builds_valid_hashers::<DefaultHashBuilder>(),
    {
        Self::with_capacity_and_hasher(DEFAULT_CAPACITY, default_hash_builder())
    }

    /// Constructs a new cache with `capacity` slots available and a default hasher
    pub fn with_capacity(capacity: usize) -> (cache: Self)
        ensures
            cache.wf(),
            cache@ == LfuView::<K, V>::fresh(clamped(capacity), None),
            capacity == 0 ==> cache@.capacity == 1,
            1 <= capacity <= 0x7fff_ffff ==> cache@.capacity == capacity,
            capacity > 0x7fff_ffff ==> cache@.capacity == 0x7fff_ffff,
            cache@.interval is None,
            cache@.pairs.len() == 0,
            cache@.uses.len() == 0,
            valid_builder(&cache.hasher()),
            builds_valid_hashers::<DefaultHashBuilder>(),
    {
        Self::with_capacity_and_hasher(capacity, default_hash_builder())
    }
}

impl<K, V> Default for LfuCache<K, V> {
    /// The same as `new`.
    fn default() -> (cache: Self)
        ensures
            cache.wf(),
            cache@ == LfuView::<K, V>::fresh(DEFAULT_CAPACITY as nat, None),
            cache@.capacity == 128,
            cache@.interval is None,
            cache@.pairs.len() == 0,
            cache@.uses.len() == 0,
            valid_builder(&cache.hasher()),
            builds_valid_hashers::<DefaultHashBuilder>(),
    {
        Self::new()
    }
}

impl<K, V, S> LfuCache<K, V, S> {
    /// Constructs a new cache with the given Hasher and default capacity
    pub fn with_hasher(hasher: S) -> (cache: Self)
        ensures
            cache.wf(),
            cache@ == LfuView::<K, V>::fresh(DEFAULT_CAPACITY as nat, None),
            cache@.capacity == 128,
            cache@.interval is None,
            cache@.pairs.len() == 0,
            cache@.uses.len() == 0,
            cache.hasher() == hasher,
    {
        Self::with_capacity_and_hasher(DEFAULT_CAPACITY, hasher)
    }

    /// Constructs a new cache with the given Hasher and `capacity` slots available
    pub fn with_capacity_and_hasher(capacity: usize, hasher: S) -> (cache: Self)
        ensures
            cache.wf(),
            cache@ == LfuView::<K, V>::fresh(clamped(capacity), None),
            capacity == 0 ==> cache@.capacity == 1,
            1 <= capacity <= 0x7fff_ffff ==> cache@.capacity == capacity,
            capacity > 0x7fff_ffff ==> cache@.capacity == 0x7fff_ffff,
            cache@.interval is None,
            cache@.pairs.len() == 0,
            cache@.uses.len() == 0,
            cache.hasher() == hasher,
    {
        let capacity = if capacity < 1 {
            1
        } else if capacity > MAX_CAPACITY / 2 {
            MAX_CAPACITY / 2
        } else {
            capacity
        };
        let cache = LfuCache {
            len: 0,
            capacity,
            age_interval: None,
            op_counter: 0,
            key_map: KeyTable::with_capacity(capacity),
            entries: Vec::with_capacity(capacity),
            hasher,
            free_slots: Vec::new(),
            freq: FreqList::new(),
            arrivals: SlotOrder::new(),
        };
        proof {
            cache.lemma_cleared();
        }
        cache
    }

    /// Without entries, all parts agree.
    proof fn lemma_cleared(&self)
        requires
            self.len == 0,
            self.entries@.len() == 0,
            self.free_slots@.len() == 0,
            self.key_map@ == Map::<Index, u64>::empty(),
            self.freq.wf(),
            self.freq.slots() == 0,
            self.freq.uses().len() == 0,
            self.arrivals.wf(),
            self.arrivals.slots() == 0,
            self.arrivals.order().len() == 0,
        ensures
            self.slots_agree(),
            self@.pairs == Seq::<(K, V)>::empty(),
            self@.uses == Seq::<Rank<K>>::empty(),
    {
        assert(self@.pairs =~= Seq::<(K, V)>::empty());
        assert(self@.uses =~= Seq::<Rank<K>>::empty());
    }

    /// Both caches hold the same keys in the same slots, filed under the same digests.
    pub closed spec fn filed_alike(&self, other: &Self) -> bool {
        &&& self.hasher == other.hasher
        &&& self.entries@.len() == other.entries@.len()
        &&& forall|i: Index| #[trigger]
            live(self.entries@, i) <==> live(other.entries@, i)
        &&& forall|i: Index| #[trigger]
            live(self.entries@, i) ==> key_at(self.entries@, i) == key_at(other.entries@, i)
                && hash_at(self.entries@, i) == hash_at(other.entries@, i)
    }

    /// The filled slots are those in the order of arrival.
    proof fn lemma_arrivals(&self)
        requires
            self.wf(),
        ensures
            self.arrivals.wf(),
            self.len == self.arrivals.order().len(),
            self.arrivals.slots() == self.entries@.len(),
            forall|i: Index| #[trigger]
                live(self.entries@, i) <==> self.arrivals.order().contains(i),
            forall|p: int|
                0 <= p < self.arrivals.order().len() ==> live(
                    self.entries@,
                    #[trigger] self.arrivals.order()[p],
                ),
    {
        assert forall|p: int| 0 <= p < self.arrivals.order().len() implies live(
            self.entries@,
            #[trigger] self.arrivals.order()[p],
        ) by {
            assert(self.arrivals.order().contains(self.arrivals.order()[p]));
        }
    }

    /// How many slots and shelves the cache has made.
    pub closed spec fn footprint(&self) -> nat {
        self.entries@.len() + self.freq.shelves_made()
    }

    /// What holds of every cache, whatever its keys do: it keeps to its capacity, and its eviction
    /// order goes by counts.
    pub proof fn lemma_bounded(&self)
        requires
            self.wf(),
        ensures
            1 <= self@.capacity <= MAX_CAPACITY / 2,
            self@.pairs.len() <= self@.capacity,
            self@.uses.len() == self@.pairs.len(),
            self.footprint() <= 2 * self@.capacity + 1,
            rising(self@.ranks()),
            forall|u: int|
                0 <= u < self@.uses.len() ==> 1 <= (#[trigger] self@.uses[u]).count <= u64::MAX,
            match self@.interval {
                Some(interval) => self@.ops < interval,
                None => self@.ops == 0,
            },
    {
        let uses = self.freq.uses();
        self.freq.lemma_used();
        lemma_filed_rising(self@.uses);
        assert forall|u: int| 0 <= u < uses.len() implies 1 <= (#[trigger] self@.uses[u]).count
            <= u64::MAX by {
            assert(uses[u].count == self@.uses[u].count);
        }
    }

    /// An iterator which visits all key-value pairs (does not bump frequency count)
    ///
    /// Yields type `(&'a K, &'a V)`, in insertion order
    pub fn iter(&self) -> (iter: Iter<'_, K, V>)
        requires
            self.wf(),
        ensures
            iter.pairs() == self@.pairs,
    {
        proof {
            self.lemma_arrivals();
        }
        Iter::over(&self.entries, &self.arrivals, self.len)
    }

    /// A mutable iterator which visits all key-value pairs (does not bump frequency count)
    ///
    /// Yields type `(&'a K, &'a mut V)`, in insertion order
    pub fn iter_mut(&mut self) -> (iter: IterMut<'_, K, V>)
        requires
            old(self).wf(),
        ensures
            final(self).wf(),
            final(self).filed_alike(old(self)),
            final(self).hasher() == old(self).hasher(),
            final(self)@ == (LfuView { pairs: final(self)@.pairs, ..old(self)@ }),
            final(self)@.pairs.len() == old(self)@.pairs.len(),
            iter.items().len() == old(self)@.pairs.len(),
            forall|i: int|
                0 <= i < old(self)@.pairs.len() ==> *(#[trigger] iter.items()[i]).0 == old(
                    self,
                )@.pairs[i].0 && *iter.items()[i].1 == old(self)@.pairs[i].1,
            forall|i: int|
                0 <= i < old(self)@.pairs.len() ==> #[trigger] final(self)@.pairs[i] == (
                    old(self)@.pairs[i].0,
                    *final(iter.items()[i].1),
                ),
    {
        let ghost before = *self;
        let ghost end = *final(self);
        proof {
            self.lemma_arrivals();
        }
        let iter = IterMut::over(&mut self.entries, &self.arrivals);
        proof {
            assert forall|p: int| 0 <= p < before.arrivals.order().len() implies key_at(
                end.entries@,
                #[trigger] before.arrivals.order()[p],
            ) == key_at(before.entries@, before.arrivals.order()[p]) && hash_at(
                end.entries@,
                before.arrivals.order()[p],
            ) == hash_at(before.entries@, before.arrivals.order()[p]) by {
                let item = iter.items()[p];
            }
            end.lemma_rewritten(before);
        }
        iter
    }

    /// An iterator which visits all keys in insertion order
    ///
    /// Yields type `&'a K`
    pub fn keys(&self) -> (keys: Keys<'_, K, V>)
        requires
            self.wf(),
        ensures
            keys.pairs() == self@.pairs,
    {
        Keys::over(self.iter())
    }

    /// An iterator which visits all values in insertion order
    ///
    /// Yields type `&'a V`
    pub fn values(&self) -> (values: Values<'_, K, V>)
        requires
            self.wf(),
        ensures
            values.pairs() == self@.pairs,
    {
        Values::over(self.iter())
    }

    /// A mutable iterator which visits all values in insertion order
    ///
    /// Yields type `&'a mut V`
    pub fn values_mut(&mut self) -> (values: ValuesMut<'_, V>)
        requires
            old(self).wf(),
        ensures
            final(self).wf(),
            final(self).filed_alike(old(self)),
            final(self).hasher() == old(self).hasher(),
            final(self)@ == (LfuView { pairs: final(self)@.pairs, ..old(self)@ }),
            final(self)@.pairs.len() == old(self)@.pairs.len(),
            values.items().len() == old(self)@.pairs.len(),
            forall|i: int|
                0 <= i < old(self)@.pairs.len() ==> *(#[trigger] values.items()[i]) == old(
                    self,
                )@.pairs[i].1,
            forall|i: int|
                0 <= i < old(self)@.pairs.len() ==> #[trigger] final(self)@.pairs[i] == (
                    old(self)@.pairs[i].0,
                    *final(values.items()[i]),
                ),
    {
        let ghost before = *self;
        let ghost end = *final(self);
        proof {
            self.lemma_arrivals();
        }
        let values = ValuesMut::over(&mut self.entries, &self.arrivals);
        proof {
            assert forall|p: int| 0 <= p < before.arrivals.order().len() implies key_at(
                end.entries@,
                #[trigger] before.arrivals.order()[p],
            ) == key_at(before.entries@, before.arrivals.order()[p]) && hash_at(
                end.entries@,
                before.arrivals.order()[p],
            ) == hash_at(before.entries@, before.arrivals.order()[p]) by {
                let item = values.items()[p];
            }
            end.lemma_rewritten(before);
        }
        values
    }

    /// Other values in the filled slots leave everything else as it is.
    proof fn lemma_rewritten(&self, before: Self)
        requires
            before.wf(),
            *self == (LfuCache { entries: self.entries, ..before }),
            self.entries@.len() == before.entries@.len(),
            forall|i: int|
                0 <= i < before.entries@.len() ==> ((#[trigger] self.entries@[i]) is Some
                    <==> before.entries@[i] is Some),
            forall|p: int|
                0 <= p < before.arrivals.order().len() ==> key_at(
                    self.entries@,
                    #[trigger] before.arrivals.order()[p],
                ) == key_at(before.entries@, before.arrivals.order()[p]) && hash_at(
                    self.entries@,
                    before.arrivals.order()[p],
                ) == hash_at(before.entries@, before.arrivals.order()[p]),
        ensures
            self.wf(),
            self.filed_alike(&before),
            self@ == (LfuView { pairs: self@.pairs, ..before@ }),
    {
        let order = before.arrivals.order();
        let uses = before.freq.uses();
        assert forall|i: Index| #[trigger] live(self.entries@, i) <==> live(
            before.entries@,
            i,
        ) by {
            if i < before.entries@.len() {
                assert(self.entries@[i as int] is Some <==> before.entries@[i as int] is Some);
            }
        }
        assert forall|i: Index| #[trigger] live(self.entries@, i) implies key_at(self.entries@, i)
            == key_at(before.entries@, i) && hash_at(self.entries@, i) == hash_at(
            before.entries@,
            i,
        ) by {
            assert(live(before.entries@, i));
            let p = order.index_of(i);
            assert(order[p] == i);
        }
        assert forall|r: int| 0 <= r < uses.len() implies live(
            before.entries@,
            (#[trigger] uses[r]).item,
        ) by {
            assert(ranked(uses, uses[r].item));
        }
        assert(self@.uses =~= before@.uses);
    }

    /// Clears all entries in the cache
    pub fn clear(&mut self)
        requires
            old(self).wf(),
        ensures
            final(self).wf(),
            final(self)@ == old(self)@.cleared(),
            final(self)@.capacity == old(self)@.capacity,
            final(self)@.interval == old(self)@.interval,
            final(self)@.ops == 0,
            final(self)@.pairs.len() == 0,
            final(self)@.uses.len() == 0,
            final(self).hasher() == old(self).hasher(),
    {
        self.entries.clear();
        self.key_map.clear();
        self.free_slots.clear();
        self.freq.clear();
        self.arrivals.clear();
        self.len = 0;
        self.op_counter = 0;
        proof {
            self.lemma_cleared();
        }
    }

    /// Capacity of the cache
    pub fn capacity(&self) -> (capacity: usize)
        ensures
            capacity == self@.capacity,
    {
        self.capacity
    }

    /// Current length of the cache
    pub fn len(&self) -> (len: usize)
        requires
            self.wf(),
        ensures
            len == self@.pairs.len(),
            len <= self@.capacity,
    {
        self.len
    }

    /// Returns `true` if the cache is empty
    pub fn is_empty(&self) -> (empty: bool)
        requires
            self.wf(),
        ensures
            empty == (self@.pairs.len() == 0),
    {
        self.len == 0
    }

    /// Sets the interval after which the frequencies held within the cache are halved
    ///
    /// This is designed to prevent cache pollution where entries that are constantly accessed
    /// essentially become irrelevant to the cache.
    ///
    /// This will set the number of operations that are performed before all frequencies in the
    /// cache are halved. No interval is set by zero.
    pub fn age_after(self, interval: usize) -> (cache: Self)
        requires
            self.wf(),
        ensures
            cache.wf(),
            cache@ == (LfuView {
                interval: if interval == 0 {
                    None
                } else {
                    Some(interval as nat)
                },
                ops: 0,
                ..self@
            }),
            cache.filed_alike(&self),
            cache.hasher() == self.hasher(),
    {
        let mut cache = self;
        cache.age_interval = if interval == 0 {
            None
        } else {
            Some(interval)
        };
        cache.op_counter = 0;
        assert(cache@.uses =~= self@.uses);
        cache
    }
}

impl<K: Hash + Eq, V, S: BuildHasher> LfuCache<K, V, S> {
    /// No key is in the cache twice, and each is filed under a digest that the hash builder may give
    /// it.
    pub closed spec fn indexed(&self) -> bool {
        &&& forall|i: Index| #[trigger]
            live(self.entries@, i) ==> may_hash_to(
                &self.hasher,
                &key_at(self.entries@, i),
                hash_at(self.entries@, i),
            )
        &&& forall|i: Index, j: Index| #[trigger]
            live(self.entries@, i) && #[trigger] live(self.entries@, j) && i != j ==> key_at(
                self.entries@,
                i,
            ) != key_at(self.entries@, j)
    }

    /// Keys can be told apart and found: the key type and the hash builder keep to what `Eq`, `Hash`
    /// and `BuildHasher` promise, and have done so for every entry.
    pub open spec fn coherent(&self) -> bool {
        &&& obeys_key_model::<K>()
        &&& K::obeys_eq_spec()
        &&& builds_valid_hashers::<S>()
        &&& self@.pairs.len() == 0 || self.indexed()
    }

    /// Lookups by a borrowed key find what they should: keys are borrowed apart, and what is borrowed
    /// is compared as `Eq` promises.
    pub open spec fn finds<Q: Eq + ?Sized>(&self) -> bool {
        self.coherent() && Q::obeys_eq_spec() && borrows_apart::<K, Q>()
    }

    /// A use of the key does not exceed the range of its count.
    pub open spec fn can_use<Q: Eq + ?Sized>(&self, key: &Q) -> bool {
        self@.peak() < u64::MAX || (self.finds::<Q>() && self@.can_count(key))
    }

    /// The slot of a key.
    fn find<Q>(&self, key: &Q, hash: u64) -> (found: Option<Index>) where
        K: Borrow<Q>,
        Q: Hash + Eq + ?Sized,

        requires
            self.wf(),
        ensures
            found matches Some(idx) ==> live(self.entries@, idx),
            self.finds::<Q>() ==> (found matches Some(idx) ==> key_is(
                key_at(self.entries@, idx),
                key,
            )),
            self.finds::<Q>() && (forall|i: Index| #[trigger]
                live(self.entries@, i) && key_is(key_at(self.entries@, i), key) ==> hash_at(
                    self.entries@,
                    i,
                ) == hash) ==> (found is None ==> forall|i: Index| #[trigger]
                live(self.entries@, i) ==> !key_is(key_at(self.entries@, i), key)),
    {
        let entries = &self.entries;
        let eq = |idx: &Index| -> (same: bool)
            requires
                live(entries@, *idx),
            ensures
                obeys_key_model::<K>() && Q::obeys_eq_spec() && borrows_apart::<K, Q>() ==> same
                    == key_is(key_at(entries@, *idx), key),
            {
                let entry = entries[*idx as usize].as_ref().expect(
                    "hash implies an entry is present",
                );
                borrow_key::<K, Q>(&entry.key).eq(key)
            };
        proof {
            assert forall|i: Index| #[trigger] self.key_map@.contains_key(i) <==> live(
                self.entries@,
                i,
            ) by {
                assert(live(self.entries@, i) <==> self.key_map@.contains_key(i));
            }
        }
        let found = self.key_map.find(hash, eq);
        proof {
            if found is None {
                assert forall|i: Index| #[trigger]
                    live(self.entries@, i) && hash_at(self.entries@, i)
                        == hash implies call_ensures(eq, (&i,), false) by {
                    assert(self.key_map@.contains_key(i));
                }
            }
        }
        found
    }

    /// Where a slot stands in both orders.
    proof fn lemma_places(&self, idx: Index) -> (pr: (int, int))
        requires
            self.wf(),
            live(self.entries@, idx),
        ensures
            0 <= pr.0 < self.arrivals.order().len(),
            self.arrivals.order()[pr.0] == idx,
            0 <= pr.1 < self.freq.uses().len(),
            self.freq.uses()[pr.1].item == idx,
            self@.same_entry(pr.0, pr.1),
            self@.pairs[pr.0] == (key_at(self.entries@, idx), value_at(self.entries@, idx)),
    {
        assert(self.arrivals.order().contains(idx));
        assert(ranked(self.freq.uses(), idx));
        let r = choose|r: int|
            0 <= r < self.freq.uses().len() && (#[trigger] self.freq.uses()[r]).item == idx;
        (self.arrivals.order().index_of(idx), r)
    }

    /// A key that is found in a slot is where the slot is.
    proof fn lemma_found<Q: ?Sized>(&self, idx: Index, key: &Q) -> (pr: (int, int))
        requires
            self.wf(),
            self.indexed(),
            live(self.entries@, idx),
            key_is(key_at(self.entries@, idx), key),
            borrows_apart::<K, Q>(),
        ensures
            0 <= pr.0 < self.arrivals.order().len(),
            self.arrivals.order()[pr.0] == idx,
            0 <= pr.1 < self.freq.uses().len(),
            self.freq.uses()[pr.1].item == idx,
            self@.contains(key),
            self@.index_of(key) == pr.0,
            self@.use_of(key) == pr.1,
            rank_keyed(self@.uses, pr.1, key),
    {
        let (p, r) = self.lemma_places(idx);
        let order = self.arrivals.order();
        let uses = self.freq.uses();
        self.arrivals.lemma_order();
        self.freq.lemma_used();
        assert(keyed(self@.pairs, p, key));
        assert(rank_keyed(self@.uses, r, key));
        let q = self@.index_of(key);
        assert(keyed(self@.pairs, q, key));
        assert(order.contains(order[q]));
        assert(live(self.entries@, order[q]));
        assert(key_is(key_at(self.entries@, order[q]), key));
        assert(order[q] == idx);
        let t = self@.use_of(key);
        assert(rank_keyed(self@.uses, t, key));
        assert(ranked(uses, uses[t].item));
        assert(live(self.entries@, uses[t].item));
        assert(key_is(key_at(self.entries@, uses[t].item), key));
        assert(uses[t].item == idx);
        (p, r)
    }

    /// A key that is found in no slot is not in the cache.
    proof fn lemma_not_found<Q: ?Sized>(&self, key: &Q)
        requires
            self.wf(),
            forall|i: Index| #[trigger]
                live(self.entries@, i) ==> !key_is(key_at(self.entries@, i), key),
        ensures
            !self@.contains(key),
            forall|r: int| !#[trigger] rank_keyed(self@.uses, r, key),
    {
        let order = self.arrivals.order();
        let uses = self.freq.uses();
        assert forall|i: int| !#[trigger] keyed(self@.pairs, i, key) by {
            if keyed(self@.pairs, i, key) {
                assert(order.contains(order[i]));
                assert(live(self.entries@, order[i]));
            }
        }
        assert forall|r: int| !#[trigger] rank_keyed(self@.uses, r, key) by {
            if rank_keyed(self@.uses, r, key) {
                assert(ranked(uses, uses[r].item));
                assert(live(self.entries@, uses[r].item));
            }
        }
    }

    /// A cache whose keys can be told apart is a valid one.
    pub proof fn lemma_valid(&self)
        requires
            self.wf(),
            self.coherent(),
        ensures
            self@.valid(),
    {
        let view = self@;
        let order = self.arrivals.order();
        let uses = self.freq.uses();
        self.arrivals.lemma_order();
        self.freq.lemma_used();
        if view.pairs.len() == 0 {
            self.lemma_empty();
        }
        assert forall|i: int| 0 <= i < order.len() implies live(
            self.entries@,
            #[trigger] order[i],
        ) by {
            assert(order.contains(order[i]));
        }
        assert forall|r: int| 0 <= r < uses.len() implies live(
            self.entries@,
            (#[trigger] uses[r]).item,
        ) by {
            assert(ranked(uses, uses[r].item));
        }
        assert forall|i: int, j: int|
            0 <= i < view.pairs.len() && 0 <= j < view.pairs.len() && i != j implies (
        #[trigger] view.pairs[i]).0 != (#[trigger] view.pairs[j]).0 by {
            assert(order[i] != order[j]);
        }
        assert forall|i: int, j: int|
            0 <= i < view.uses.len() && 0 <= j < view.uses.len() && i != j implies (
        #[trigger] view.uses[i]).item != (#[trigger] view.uses[j]).item by {
            assert(uses[i].item != uses[j].item);
        }
        self.lemma_bounded();
        assert forall|i: int| 0 <= i < view.pairs.len() implies ranked(
            view.uses,
            (#[trigger] view.pairs[i]).0,
        ) by {
            let (p, r) = self.lemma_places(order[i]);
            assert(view.uses[r].item == view.pairs[i].0);
        }
        assert forall|r: int| 0 <= r < view.uses.len() implies view.contains(
            &(#[trigger] view.uses[r]).item,
        ) by {
            let (p, t) = self.lemma_places(uses[r].item);
            assert(keyed(view.pairs, p, &view.uses[r].item));
        }
    }

    /// An empty cache has no filled slot.
    proof fn lemma_empty(&self)
        requires
            self.wf(),
            self@.pairs.len() == 0,
        ensures
            forall|i: Index| !#[trigger] live(self.entries@, i),
            self.indexed(),
    {
        assert forall|i: Index| !#[trigger] live(self.entries@, i) by {
            assert(live(self.entries@, i) <==> self.arrivals.order().contains(i));
        }
    }

    /// Where the same keys are filed in the same way, they are found in the same way.
    pub proof fn lemma_filed_alike(&self, other: &Self)
        requires
            self.filed_alike(other),
            self@.pairs.len() == other@.pairs.len(),
        ensures
            self.coherent() == other.coherent(),
    {
        assert(self.indexed() == other.indexed()) by {
            assert forall|i: Index| #[trigger]
                live(other.entries@, i) implies key_at(self.entries@, i) == key_at(
                other.entries@,
                i,
            ) && hash_at(self.entries@, i) == hash_at(other.entries@, i) by {
                assert(live(self.entries@, i));
            }
            if self.indexed() {
                assert forall|i: Index| #[trigger] live(other.entries@, i) implies may_hash_to(
                    &other.hasher,
                    &key_at(other.entries@, i),
                    hash_at(other.entries@, i),
                ) by {
                    assert(live(self.entries@, i));
                }
                assert forall|i: Index, j: Index| #[trigger]
                    live(other.entries@, i) && #[trigger] live(other.entries@, j) && i
                        != j implies key_at(other.entries@, i) != key_at(other.entries@, j) by {
                    assert(live(self.entries@, i) && live(self.entries@, j));
                }
            }
            if other.indexed() {
                assert forall|i: Index| #[trigger] live(self.entries@, i) implies may_hash_to(
                    &self.hasher,
                    &key_at(self.entries@, i),
                    hash_at(self.entries@, i),
                ) by {
                    assert(live(other.entries@, i));
                }
                assert forall|i: Index, j: Index| #[trigger]
                    live(self.entries@, i) && #[trigger] live(self.entries@, j) && i
                        != j implies key_at(self.entries@, i) != key_at(self.entries@, j) by {
                    assert(live(other.entries@, i) && live(other.entries@, j));
                }
            }
        }
    }

    /// Slots with clones agree as the slots that they were cloned from.
    proof fn lemma_cloned(&self, from: Self) where K: Clone, V: Clone
        requires
            from.wf(),
            self.len == from.len,
            self.capacity == from.capacity,
            self.age_interval == from.age_interval,
            self.op_counter == from.op_counter,
            self.key_map@ == from.key_map@,
            self.free_slots@ == from.free_slots@,
            self.freq.wf(),
            self.freq.slots() == from.freq.slots(),
            self.freq.uses() == from.freq.uses(),
            self.arrivals.wf(),
            self.arrivals.slots() == from.arrivals.slots(),
            self.arrivals.order() == from.arrivals.order(),
            self.entries@.len() == from.entries@.len(),
            forall|j: int|
                0 <= j < from.entries@.len() ==> entry_cloned(
                    from.entries@[j],
                    #[trigger] self.entries@[j],
                ),
        ensures
            self.wf(),
            forall|i: int|
                0 <= i < from@.pairs.len() ==> cloned(
                    from@.pairs[i].0,
                    (#[trigger] self@.pairs[i]).0,
                ) && cloned(from@.pairs[i].1, self@.pairs[i].1),
            forall|r: int|
                0 <= r < from@.uses.len() ==> cloned(
                    from@.uses[r].item,
                    (#[trigger] self@.uses[r]).item,
                ),
            clones_exactly::<K>() && self.hasher == from.hasher ==> self.filed_alike(&from),
            clones_exactly::<K>() && clones_exactly::<V>() ==> self@ == from@,
    {
        let order = from.arrivals.order();
        let uses = from.freq.uses();
        assert forall|i: Index| #[trigger] live(self.entries@, i) <==> live(from.entries@, i) by {
            if i < from.entries@.len() {
                assert(entry_cloned(from.entries@[i as int], self.entries@[i as int]));
            }
        }
        assert forall|i: Index| #[trigger] live(from.entries@, i) implies cloned(
            key_at(from.entries@, i),
            key_at(self.entries@, i),
        ) && cloned(value_at(from.entries@, i), value_at(self.entries@, i)) && hash_at(
            from.entries@,
            i,
        ) == hash_at(self.entries@, i) by {
            assert(entry_cloned(from.entries@[i as int], self.entries@[i as int]));
        }
        assert forall|i: Index| #[trigger] live(self.entries@, i) implies live(
            from.entries@,
            i,
        ) by {}
        assert(self.wf());
        assert forall|i: int| 0 <= i < order.len() implies live(
            from.entries@,
            #[trigger] order[i],
        ) by {
            assert(order.contains(order[i]));
        }
        assert forall|r: int| 0 <= r < uses.len() implies live(
            from.entries@,
            (#[trigger] uses[r]).item,
        ) by {
            assert(ranked(uses, uses[r].item));
        }
        if clones_exactly::<K>() && clones_exactly::<V>() {
            assert(self@.pairs =~= from@.pairs);
            assert(self@.uses =~= from@.uses);
        }
    }

    /// The digest of a key is the one that the key is filed under.
    fn hash_of<Q>(&self, key: &Q) -> (hash: u64) where
        K: Borrow<Q>,
        Q: Hash + Eq + ?Sized,

        requires
            self.wf(),
        ensures
            self.coherent() ==> self.indexed(),
            self.finds::<Q>() ==> forall|i: Index| #[trigger]
                live(self.entries@, i) && key_is(key_at(self.entries@, i), key) ==> hash_at(
                    self.entries@,
                    i,
                ) == hash,
            self.finds::<Q>() ==> forall|k: K, d: u64| key_is(k, key) && #[trigger]
                may_hash_to(&self.hasher, &k, d) ==> d == hash,
    {
        proof {
            if self@.pairs.len() == 0 {
                self.lemma_empty();
            }
        }
        hash_key::<K, Q, S>(&self.hasher, key)
    }

    /// Returns a reference to the value for the given key if it exists without bumping the
    /// frequency access count
    pub fn peek<Q>(&self, key: &Q) -> (value: Option<&V>) where
        K: Borrow<Q>,
        Q: Hash + Eq + ?Sized,

        requires
            self.wf(),
        ensures
            value matches Some(value) ==> exists|i: int|
                0 <= i < self@.pairs.len() && (#[trigger] self@.pairs[i]).1 == *value,
            self.finds::<Q>() ==> value == if self@.contains(key) {
                Some(&self@.value_of(key))
            } else {
                None
            },
    {
        let hash = self.hash_of(key);
        match self.find(key, hash) {
            Some(idx) => {
                proof {
                    if self.finds::<Q>() {
                        self.lemma_found(idx, key);
                    }
                    self.lemma_places(idx);
                }
                Some(&self.fetch_entry(idx).value)
            },
            None => {
                proof {
                    if self.finds::<Q>() {
                        self.lemma_not_found(key);
                    }
                }
                None
            },
        }
    }

    /// Returns `true` if the cache contains an entry for the given key
    pub fn contains_key<Q>(&self, key: &Q) -> (present: bool) where
        K: Borrow<Q>,
        Q: Hash + Eq + ?Sized,

        requires
            self.wf(),
        ensures
            present ==> self@.pairs.len() > 0,
            self.finds::<Q>() ==> present == self@.contains(key),
    {
        let hash = self.hash_of(key);
        let found = self.find(key, hash);
        proof {
            if found is Some {
                self.lemma_places(found->0);
            }
            if self.finds::<Q>() {
                if found is Some {
                    self.lemma_found(found->0, key);
                } else {
                    self.lemma_not_found(key);
                }
            }
        }
        found.is_some()
    }

    /// The count of a found key can be raised.
    proof fn lemma_can_use<Q: Eq + ?Sized>(&self, idx: Index, key: &Q)
        requires
            self.wf(),
            live(self.entries@, idx),
            self.can_use(key),
            self.finds::<Q>() ==> self.indexed() && key_is(key_at(self.entries@, idx), key),
        ensures
            forall|r: int|
                0 <= r < self.freq.uses().len() && (#[trigger] self.freq.uses()[r]).item == idx
                    ==> self.freq.uses()[r].count < u64::MAX,
    {
        let uses = self.freq.uses();
        self.freq.lemma_used();
        assert forall|r: int| 0 <= r < uses.len() && (#[trigger] uses[r]).item
            == idx implies uses[r].count < u64::MAX by {
            if self@.peak() < u64::MAX {
                lemma_peak(self@);
                assert(self@.uses[r].count <= self@.peak());
            } else {
                let (p, t) = self.lemma_found(idx, key);
                assert(uses[t].item == idx);
                assert(rank_keyed(self@.uses, t, key));
            }
        }
    }

    /// One use of a filled slot.
    fn use_slot(&mut self, idx: Index)
        requires
            old(self).wf(),
            live(old(self).entries@, idx),
            forall|r: int|
                0 <= r < old(self).freq.uses().len() && (#[trigger] old(
                    self,
                ).freq.uses()[r]).item == idx ==> old(self).freq.uses()[r].count < u64::MAX,
        ensures
            final(self).wf(),
            final(self).entries == old(self).entries,
            final(self).arrivals == old(self).arrivals,
            final(self).hasher == old(self).hasher,
            final(self)@.pairs == old(self)@.pairs,
            final(self)@.capacity == old(self)@.capacity,
            final(self)@.interval == old(self)@.interval,
            final(self)@.peak() <= old(self)@.peak() + 1,
            forall|r: int|
                0 <= r < old(self).freq.uses().len() && (#[trigger] old(
                    self,
                ).freq.uses()[r]).item == idx ==> final(self)@ == old(self)@.used_at(r),
    {
        let ghost (p, r) = self.lemma_places(idx);
        proof {
            self.freq.lemma_used();
        }
        self.bump(idx);
        proof {
            assert(old(self).freq.uses()[r].item == idx);
            self.freq.lemma_used();
            lemma_reused_peak(old(self)@, r);
            lemma_ticked_peak(self@);
        }
        self.tick();
    }

    /// Another value in a filled slot leaves everything else as it is.
    proof fn lemma_revalued(&self, before: Self, idx: Index, p: int)
        requires
            before.wf(),
            live(before.entries@, idx),
            0 <= p < before.arrivals.order().len(),
            before.arrivals.order()[p] == idx,
            *self == (LfuCache { entries: self.entries, ..before }),
            live(self.entries@, idx),
            key_at(self.entries@, idx) == key_at(before.entries@, idx),
            hash_at(self.entries@, idx) == hash_at(before.entries@, idx),
            self.entries@ == before.entries@.update(idx as int, self.entries@[idx as int]),
        ensures
            self.wf(),
            before.indexed() ==> self.indexed(),
            self@ == before@.with_value_at(p, value_at(self.entries@, idx)),
    {
        assert forall|i: Index| #[trigger] live(self.entries@, i) <==> live(
            before.entries@,
            i,
        ) by {}
        before.arrivals.lemma_order();
        assert(self@.pairs =~= before@.pairs.update(
            p,
            (before@.pairs[p].0, value_at(self.entries@, idx)),
        ));
        before.freq.lemma_used();
        assert forall|r: int| 0 <= r < before.freq.uses().len() implies key_at(
            self.entries@,
            (#[trigger] before.freq.uses()[r]).item,
        ) == key_at(before.entries@, before.freq.uses()[r].item) by {}
        assert(self@.uses =~= before@.uses);
    }

    /// Returns a reference to the value associated with the key
    pub fn get<Q>(&mut self, key: &Q) -> (value: Option<&V>) where
        K: Borrow<Q>,
        Q: Hash + Eq + ?Sized,

        requires
            old(self).wf(),
            old(self).can_use(key),
        ensures
            final(self).wf(),
            final(self).hasher() == old(self).hasher(),
            final(self)@.pairs == old(self)@.pairs,
            final(self)@.capacity == old(self)@.capacity,
            final(self)@.interval == old(self)@.interval,
            final(self)@.peak() <= old(self)@.peak() + 1,
            value is None ==> final(self)@ == old(self)@,
            value matches Some(value) ==> exists|i: int, u: int| #[trigger]
                old(self)@.same_entry(i, u) && *value == old(self)@.pairs[i].1 && final(self)@
                    == old(self)@.used_at(u),
            old(self).coherent() ==> final(self).coherent(),
            old(self).finds::<Q>() && old(self)@.contains(key) ==> value
                == Some(&old(self)@.value_of(key)) && final(self)@ == old(self)@.used(key),
            old(self).finds::<Q>() && !old(self)@.contains(key)
                ==> value is None,
    {
        let hash = self.hash_of(key);
        let idx = match self.find(key, hash) {
            Some(idx) => idx,
            None => {
                proof {
                    if self.finds::<Q>() {
                        self.lemma_not_found(key);
                    }
                }
                return None;
            },
        };
        proof {
            if self.finds::<Q>() {
                self.lemma_found(idx, key);
            }
            self.lemma_can_use(idx, key);
        }
        self.use_slot(idx);
        proof {
            let (p, r) = old(self).lemma_places(idx);
            assert(self@ == old(self)@.used_at(r));
        }
        let entry = self.fetch_entry(idx);
        Some(&entry.value)
    }

    /// Returns a mutable reference to the value associated with the key
    pub fn get_mut<Q>(&mut self, key: &Q) -> (value: Option<&mut V>) where
        K: Borrow<Q>,
        Q: Hash + Eq + ?Sized,

        requires
            old(self).wf(),
            old(self).can_use(key),
        ensures
            final(self).wf(),
            final(self).hasher() == old(self).hasher(),
            final(self)@.peak() <= old(self)@.peak() + 1,
            final(self)@.capacity == old(self)@.capacity,
            final(self)@.interval == old(self)@.interval,
            final(self)@.pairs.len() == old(self)@.pairs.len(),
            value is None ==> final(self)@ == old(self)@,
            value matches Some(value) ==> exists|i: int, u: int| #[trigger]
                old(self)@.same_entry(i, u) && *value == old(self)@.pairs[i].1 && final(self)@
                    == old(self)@.used_at(u).with_value_at(i, *final(value)),
            old(self).coherent() ==> final(self).coherent(),
            old(self).finds::<Q>() && old(self)@.contains(key) ==> {
                &&& value matches Some(value)
                &&& *value == old(self)@.value_of(key)
                &&& final(self)@ == old(self)@.used(key).with_value(key, *final(value))
            },
            old(self).finds::<Q>() && !old(self)@.contains(key)
                ==> value is None,
    {
        let hash = self.hash_of(key);
        let idx = match self.find(key, hash) {
            Some(idx) => idx,
            None => {
                proof {
                    if self.finds::<Q>() {
                        self.lemma_not_found(key);
                    }
                }
                return None;
            },
        };
        proof {
            if self.finds::<Q>() {
                self.lemma_found(idx, key);
            }
            self.lemma_can_use(idx, key);
        }
        self.use_slot(idx);
        let ghost used = *self;
        let ghost end = *final(self);
        let entry = self.fetch_entry_mut(idx);
        let value = &mut entry.value;
        proof {
            let (p, r) = old(self).lemma_places(idx);
            used.arrivals.lemma_order();
            end.lemma_revalued(used, idx, p);
            assert(used@ == old(self)@.used_at(r));
            assert(end@ == old(self)@.used_at(r).with_value_at(p, *final(value)));
            if old(self).finds::<Q>() {
                let (q, t) = old(self).lemma_found(idx, key);
                assert(p == q);
                assert(used@ == old(self)@.used(key));
            }
        }
        Some(value)
    }

    /// Removes an entry from the cache with the given key returning the value associated with it
    pub fn remove<Q>(&mut self, key: &Q) -> (value: Option<V>) where
        K: Borrow<Q>,
        Q: Hash + Eq + ?Sized,

        requires
            old(self).wf(),
        ensures
            final(self).wf(),
            final(self).hasher() == old(self).hasher(),
            final(self)@.peak() <= old(self)@.peak(),
            final(self)@.capacity == old(self)@.capacity,
            final(self)@.interval == old(self)@.interval,
            value is None ==> final(self)@ == old(self)@,
            value matches Some(value) ==> exists|i: int, u: int| #[trigger]
                old(self)@.same_entry(i, u) && value == old(self)@.pairs[i].1 && final(self)@
                    == old(self)@.without_at(i, u).ticked(),
            old(self).coherent() ==> final(self).coherent(),
            old(self).finds::<Q>() && old(self)@.contains(key) ==> value == Some(
                old(self)@.value_of(key),
            ) && final(self)@ == old(self)@.without(key).ticked(),
            old(self).finds::<Q>() && !old(self)@.contains(key) ==> value is None,
    {
        let hash = self.hash_of(key);
        let idx = match self.find(key, hash) {
            Some(idx) => idx,
            None => {
                proof {
                    if self.finds::<Q>() {
                        self.lemma_not_found(key);
                    }
                }
                return None;
            },
        };
        proof {
            if self.finds::<Q>() {
                self.lemma_found(idx, key);
            }
        }
        let pair = self.remove_at_index(idx);
        proof {
            self.lemma_emptied(*old(self), idx);
            let (p, u) = old(self).lemma_places(idx);
            assert(self@ == old(self)@.without_at(p, u));
            self.lemma_bounded();
            lemma_ticked_peak(self@);
        }
        self.tick();
        Some(pair.1)
    }

    /// Emptying a slot raises no count and hides no key.
    proof fn lemma_emptied(&self, before: Self, idx: Index)
        requires
            before.wf(),
            live(before.entries@, idx),
            self.hasher == before.hasher,
            self.entries@ == before.entries@.update(idx as int, None),
            forall|p: int, u: int|
                0 <= p < before.arrivals.order().len() && #[trigger] before.arrivals.order()[p]
                    == idx && 0 <= u < before.freq.uses().len() && (
                #[trigger] before.freq.uses()[u]).item == idx ==> self@ == before@.without_at(p, u),
        ensures
            before.indexed() ==> self.indexed(),
            self@.peak() <= before@.peak(),
            self@.pairs.len() + 1 == before@.pairs.len(),
            self@.capacity == before@.capacity,
    {
        let (p, u) = before.lemma_places(idx);
        lemma_removed_peak(before@, self@, u);
        assert forall|i: Index| #[trigger] live(self.entries@, i) implies live(
            before.entries@,
            i,
        ) && i != idx by {}
    }

    /// A key that is not in the cache is in no slot.
    proof fn lemma_absent(&self, key: K)
        requires
            self.wf(),
            !self@.contains(&key),
        ensures
            forall|i: Index| #[trigger] live(self.entries@, i) ==> key_at(self.entries@, i) != key,
    {
        assert forall|i: Index| #[trigger] live(self.entries@, i) implies key_at(self.entries@, i)
            != key by {
            let (p, r) = self.lemma_places(i);
            assert(!keyed(self@.pairs, p, &key));
        }
    }

    /// Takes out the entry that is next in the eviction order.
    fn pop_lowest(&mut self) -> (pair: Option<(K, V)>)
        requires
            old(self).wf(),
        ensures
            final(self).wf(),
            final(self).hasher == old(self).hasher,
            final(self)@.peak() <= old(self)@.peak(),
            old(self)@.pairs.len() == 0 ==> pair is None && final(self)@ == old(self)@,
            old(self)@.pairs.len() > 0 ==> {
                &&& pair matches Some(pair)
                &&& pair.0 == old(self)@.victim()
                &&& exists|i: int, u: int| #[trigger]
                    old(self)@.same_entry(i, u) && pair == old(self)@.pairs[i] && final(self)@
                        == old(self)@.without_at(i, u)
            },
            old(self).coherent() ==> final(self).coherent(),
            old(self).coherent() && old(self)@.pairs.len() > 0 ==> pair == Some(
                (old(self)@.victim(), old(self)@.value_of(&old(self)@.victim())),
            ) && final(self)@ == old(self)@.evicted(),
    {
        let target = self.freq.lowest();
        if target == NULL_IDX {
            return None;
        }
        proof {
            self.freq.lemma_used();
            lemma_filed_rising(self.freq.uses());
            lemma_filed_distinct(self.freq.uses());
            assert(ranked(self.freq.ranks(), self.freq.ranks()[0].item));
            assert(live(self.entries@, target));
            lemma_renamed_filed(self.freq.uses(), self.naming());
            assert(self@.ranks() == renamed(self.freq.ranks(), self.naming()));
            if self.coherent() {
                lemma_borrows_itself_apart::<K>();
                if self@.pairs.len() == 0 {
                    self.lemma_empty();
                }
                self.lemma_found(target, &self@.victim());
            }
        }
        let ghost before = *self;
        let pair = self.remove_at_index(target);
        proof {
            self.lemma_emptied(before, target);
            let (p, u) = before.lemma_places(target);
            assert(self@ == before@.without_at(p, u));
        }
        Some(pair)
    }

    /// Removes the least-frequently used entry from the cache returning the key-value pair
    pub fn evict(&mut self) -> (pair: Option<(K, V)>)
        requires
            old(self).wf(),
        ensures
            final(self).wf(),
            final(self).hasher() == old(self).hasher(),
            final(self)@.peak() <= old(self)@.peak(),
            old(self)@.pairs.len() == 0 ==> pair is None && final(self)@ == old(self)@,
            old(self)@.pairs.len() > 0 ==> {
                &&& pair matches Some(pair)
                &&& pair.0 == old(self)@.victim()
                &&& exists|i: int, u: int| #[trigger]
                    old(self)@.same_entry(i, u) && pair == old(self)@.pairs[i] && final(self)@
                        == old(self)@.without_at(i, u).ticked()
            },
            old(self).coherent() ==> final(self).coherent(),
            old(self).coherent() && old(self)@.pairs.len() > 0 ==> pair == Some(
                (old(self)@.victim(), old(self)@.value_of(&old(self)@.victim())),
            ) && final(self)@ == old(self)@.evicted().ticked(),
    {
        let pair = self.pop_lowest();
        if pair.is_some() {
            proof {
                self.lemma_bounded();
                lemma_ticked_peak(self@);
            }
            self.tick();
        }
        pair
    }

    /// Inserts a key-value pair into the cache. If this updates a currently existing value, the
    /// old value is returned
    pub fn put(&mut self, key: K, value: V) -> (previous: Option<V>)
        requires
            old(self).wf(),
            old(self).can_use(&key),
        ensures
            final(self).wf(),
            final(self).hasher() == old(self).hasher(),
            final(self)@.peak() <= old(self)@.peak() + 1,
            final(self)@.capacity == old(self)@.capacity,
            final(self)@.interval == old(self)@.interval,
            final(self)@.pairs.len() == if previous is None && old(self)@.pairs.len() < old(
                self,
            )@.capacity {
                old(self)@.pairs.len() + 1
            } else {
                old(self)@.pairs.len()
            },
            previous matches Some(previous) ==> exists|i: int, u: int| #[trigger]
                old(self)@.same_entry(i, u) && previous == old(self)@.pairs[i].1 && final(self)@
                    == old(self)@.with_value_at(i, value).used_at(u),
            previous is None && old(self)@.pairs.len() < old(self)@.capacity ==> final(self)@
                == old(self)@.with_new(key, value).ticked(),
            previous is None && old(self)@.pairs.len() >= old(self)@.capacity ==> exists|
                i: int,
                u: int,
            | #[trigger]
                old(self)@.same_entry(i, u) && old(self)@.pairs[i].0 == old(self)@.victim()
                    && final(self)@ == old(self)@.without_at(i, u).with_new(key, value).ticked(),
            old(self).coherent() ==> final(self).coherent() && final(self)@ == old(self)@.put(
                key,
                value,
            ) && previous == if old(self)@.contains(&key) {
                Some(old(self)@.value_of(&key))
            } else {
                None
            },
    {
        proof {
            lemma_borrows_itself_apart::<K>();
        }
        let hash = self.hash_of(&key);
        if let Some(idx) = self.find(&key, hash) {
            proof {
                if self.coherent() {
                    self.lemma_found(idx, &key);
                }
                self.lemma_can_use(idx, &key);
            }
            let ghost (p, r) = self.lemma_places(idx);
            let mut previous = value;
            let entry = self.fetch_entry_mut(idx);
            std::mem::swap(&mut entry.value, &mut previous);
            proof {
                self.lemma_revalued(*old(self), idx, p);
                self.arrivals.lemma_order();
                self.freq.lemma_used();
                if old(self).coherent() {
                    let (q, t) = old(self).lemma_found(idx, &key);
                    assert(p == q);
                    self.lemma_found(idx, &key);
                }
            }
            self.use_slot(idx);
            assert(self@ == old(self)@.with_value_at(p, value).used_at(r));
            return Some(previous);
        }
        proof {
            if self.coherent() {
                self.lemma_not_found(&key);
            }
        }
        if self.is_full() {
            self.pop_lowest();
            proof {
                if old(self).coherent() {
                    let (p, u) = choose|p: int, u: int| #[trigger]
                        old(self)@.same_entry(p, u) && self@ == old(self)@.without_at(p, u);
                    assert forall|i: int| !#[trigger] keyed(self@.pairs, i, &key) by {
                        let i0 = if i < p {
                            i
                        } else {
                            i + 1
                        };
                        assert(!keyed(old(self)@.pairs, i0, &key));
                    }
                }
            }
        }
        let ghost roomy = *self;
        // For a key that hashes as it promises, this is the digest that it was looked for under.
        let hash = digest_of(&self.hasher, &key);
        let ghost added = key;
        self.insert_entry(CacheEntry { key, value, hash });
        proof {
            self.freq.lemma_used();
            roomy.freq.lemma_used();
            lemma_new_peak(roomy@, added, value);
            lemma_ticked_peak(self@);
            if old(self).coherent() {
                if roomy@.pairs.len() == 0 {
                    roomy.lemma_empty();
                }
                roomy.lemma_absent(added);
            }
        }
        self.tick();
        None
    }

    /// Returns a reference to the value associated with the key or inserts it with the given value
    pub fn get_or_insert(&mut self, key: K, insert_with: V) -> (value: &V) where K: Clone
        requires
            old(self).wf(),
            old(self).coherent(),
            old(self).can_use(&key),
            forall|copy: K| cloned(key, copy) ==> copy == key,
        ensures
            final(self).wf(),
            final(self).coherent(),
            final(self).hasher() == old(self).hasher(),
            final(self)@.peak() <= old(self)@.peak() + 1,
            old(self)@.contains(&key) ==> *value == old(self)@.value_of(&key) && final(self)@
                == old(self)@.used(&key),
            !old(self)@.contains(&key) ==> *value == insert_with && final(self)@ == old(self)@.put(
                key,
                insert_with,
            ),
    {
        proof {
            lemma_borrows_itself_apart::<K>();
        }
        if self.get(&key).is_none() {
            let copy = key.clone();
            proof {
                assert(cloned(key, copy));
                self.lemma_valid();
                assert forall|u: int| !#[trigger] rank_keyed(self@.uses, u, &key) by {
                    if rank_keyed(self@.uses, u, &key) {
                        assert(self@.contains(&self@.uses[u].item));
                    }
                }
                law_read_back(self@, key, insert_with);
            }
            self.put(copy, insert_with);
        }
        self.peek(&key).expect("key was either present or just inserted")
    }

    /// Returns a reference to the value associated with the key or inserts it with the value
    /// evaluated from the provided closure
    pub fn get_or_insert_with<F>(&mut self, key: K, insert_with: F) -> (value: &V) where
        K: Clone,
        F: FnOnce() -> V,

        requires
            old(self).wf(),
            old(self).coherent(),
            old(self).can_use(&key),
            forall|copy: K| cloned(key, copy) ==> copy == key,
            call_requires(insert_with, ()),
        ensures
            final(self).wf(),
            final(self).coherent(),
            final(self).hasher() == old(self).hasher(),
            final(self)@.peak() <= old(self)@.peak() + 1,
            exists|made: V| #[trigger]
                call_ensures(insert_with, (), made) && if old(self)@.contains(&key) {
                    *value == old(self)@.value_of(&key) && final(self)@ == old(self)@.used(&key)
                } else {
                    *value == made && final(self)@ == old(self)@.put(key, made)
                },
    {
        let made = insert_with();
        self.get_or_insert(key, made)
    }
}

impl<K, V, S> Clone for LfuCache<K, V, S> where
    K: Hash + Eq + Clone,
    V: Clone,
    S: BuildHasher + Clone,
 {
    /// A cache with clones of all keys and values, in the same orders and with the same counts.
    fn clone(&self) -> (copy: Self)
        ensures
            self.wf() ==> copy.wf(),
            cloned(self.hasher(), copy.hasher()),
            self.wf() ==> {
                &&& copy@.capacity == self@.capacity
                &&& copy@.interval == self@.interval
                &&& copy@.ops == self@.ops
                &&& copy@.pairs.len() == self@.pairs.len()
                &&& forall|i: int|
                    0 <= i < self@.pairs.len() ==> cloned(
                        self@.pairs[i].0,
                        (#[trigger] copy@.pairs[i]).0,
                    ) && cloned(self@.pairs[i].1, copy@.pairs[i].1)
                &&& copy@.uses.len() == self@.uses.len()
                &&& forall|r: int|
                    0 <= r < self@.uses.len() ==> cloned(
                        self@.uses[r].item,
                        (#[trigger] copy@.uses[r]).item,
                    ) && copy@.uses[r].count == self@.uses[r].count
            },
            self.wf() && self.coherent() && clones_exactly::<K>() && clones_exactly::<S>()
                ==> copy.coherent(),
            self.wf() && clones_exactly::<K>() && clones_exactly::<V>() ==> copy@ == self@,
            self.wf() && (forall|a: K, b: K| #[trigger] cloned(a, b) ==> a == b) && (forall|
                a: V,
                b: V,
            | #[trigger]
                cloned(a, b) ==> a == b) ==> copy@ == self@,
            self.wf() && self.coherent() && (forall|a: K, b: K| #[trigger] cloned(a, b) ==> a == b)
                && (forall|a: S, b: S| #[trigger] cloned(a, b) ==> a == b) ==> copy.coherent(),
    {
        let mut entries: Vec<Option<CacheEntry<K, V>>> = Vec::with_capacity(self.entries.len());
        let mut i: usize = 0;
        while i < self.entries.len()
            invariant
                i <= self.entries@.len(),
                entries@.len() == i,
                forall|j: int| 0 <= j < i ==> entry_cloned(self.entries@[j], #[trigger] entries@[j]),
            decreases self.entries@.len() - i,
        {
            match self.entries[i].as_ref() {
                Some(entry) => {
                    let key = entry.key.clone();
                    let value = entry.value.clone();
                    entries.push(Some(CacheEntry { key, value, hash: entry.hash }));
                },
                None => {
                    entries.push(None);
                },
            }
            i = i + 1;
        }
        let copy = LfuCache {
            len: self.len,
            capacity: self.capacity,
            age_interval: self.age_interval,
            op_counter: self.op_counter,
            key_map: self.key_map.clone(),
            entries,
            hasher: self.hasher.clone(),
            free_slots: self.free_slots.clone(),
            freq: self.freq.clone(),
            arrivals: self.arrivals.clone(),
        };
        proof {
            if self.wf() {
                assert(copy.free_slots@ =~= self.free_slots@);
                copy.lemma_cloned(*self);
                if clones_exactly::<K>() && clones_exactly::<S>() {
                    assert(cloned(self.hasher, copy.hasher));
                    copy.lemma_filed_alike(self);
                }
            }
        }
        copy
    }
}

impl<'a, K, V, S> IntoIterator for &'a LfuCache<K, V, S> {
    type Item = (&'a K, &'a V);

    type IntoIter = Iter<'a, K, V>;

    /// The same as `iter`.
    fn into_iter(self) -> (iter: Iter<'a, K, V>)
        requires
            self.wf(),
        ensures
            iter.pairs() == self@.pairs,
    {
        self.iter()
    }
}

impl<'a, K, V, S> IntoIterator for &'a mut LfuCache<K, V, S> {
    type Item = (&'a K, &'a mut V);

    type IntoIter = IterMut<'a, K, V>;

    /// The same as `iter_mut`.
    fn into_iter(self) -> (iter: IterMut<'a, K, V>)
        requires
            old(self).wf(),
        ensures
            final(self).wf(),
            final(self).filed_alike(old(self)),
            final(self).hasher() == old(self).hasher(),
            final(self)@ == (LfuView { pairs: final(self)@.pairs, ..old(self)@ }),
            final(self)@.pairs.len() == old(self)@.pairs.len(),
            iter.items().len() == old(self)@.pairs.len(),
            forall|i: int|
                0 <= i < old(self)@.pairs.len() ==> *(#[trigger] iter.items()[i]).0 == old(
                    self,
                )@.pairs[i].0 && *iter.items()[i].1 == old(self)@.pairs[i].1,
            forall|i: int|
                0 <= i < old(self)@.pairs.len() ==> #[trigger] final(self)@.pairs[i] == (
                    old(self)@.pairs[i].0,
                    *final(iter.items()[i].1),
                ),
    {
        self.iter_mut()
    }
}

impl<K, V, S> IntoIterator for LfuCache<K, V, S> {
    type Item = (K, V);

    type IntoIter = IntoIter<K, V>;

    /// An iterator which visits all key-value pairs in insertion order, and owns them.
    fn into_iter(self) -> (iter: IntoIter<K, V>)
        requires
            self.wf(),
        ensures
            iter.pairs() == self@.pairs,
    {
        proof {
            self.lemma_arrivals();
        }
        IntoIter::over(self.entries, &self.arrivals)
    }
}

} // verus!
