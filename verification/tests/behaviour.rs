use lfu_light::{FreqSlot, LfuCache};
use std::collections::hash_map::RandomState;
use std::hash::{Hash, Hasher};

fn keys_of(lfu: &LfuCache<u32, u32>) -> Vec<u32> {
    lfu.keys().copied().collect()
}

/// Evicts everything, with aging off, and gives the keys in the order in which they left.
fn drain(lfu: LfuCache<u32, u32>) -> Vec<u32> {
    let mut lfu = lfu.age_after(0);
    let mut order = Vec::new();
    while let Some((key, _)) = lfu.evict() {
        order.push(key);
    }
    order
}

#[test]
fn example() {
    let mut lfu = LfuCache::with_capacity(2);
    lfu.put("apple", 1);
    lfu.put("banana", 2);
    assert_eq!(lfu.get("apple"), Some(&1));

    lfu.put("orange", 3);
    assert!(lfu.get("banana").is_none());

    assert_eq!(lfu.put("orange", 5), Some(3));
    *lfu.get_mut("apple").expect("apple is still present") = 12;
    assert_eq!(lfu.get("apple"), Some(&12));

    assert_eq!(lfu.remove("orange"), Some(5));
}

#[test]
fn owned_keys_are_found_by_borrowed_ones() {
    let mut lfu: LfuCache<String, u32> = LfuCache::with_capacity(3);
    lfu.put(String::from("one"), 1);
    lfu.put(String::from("two"), 2);
    assert_eq!(lfu.peek("one"), Some(&1));
    assert_eq!(lfu.get("two"), Some(&2));
    assert!(lfu.contains_key("one"));
    assert!(!lfu.contains_key("three"));
    assert_eq!(lfu.remove("one"), Some(1));
    assert_eq!(lfu.peek("one"), None);
    assert_eq!(lfu.put(String::from("two"), 22), Some(2));
    assert_eq!(lfu.len(), 1);
}

#[test]
fn custom_hash_builder() {
    let mut lfu: LfuCache<u64, u64, RandomState> = LfuCache::with_hasher(RandomState::new());
    assert_eq!(lfu.capacity(), 128);
    for i in 0..128 {
        assert_eq!(lfu.put(i, i * i), None);
    }
    for i in 0..128 {
        assert_eq!(lfu.peek(&i), Some(&(i * i)));
    }

    let small: LfuCache<u64, u64, RandomState> =
        LfuCache::with_capacity_and_hasher(3, RandomState::new());
    assert_eq!(small.capacity(), 3);
}

#[test]
fn default_is_new() {
    let lfu: LfuCache<u32, u32> = LfuCache::default();
    assert_eq!(lfu.capacity(), 128);
    assert!(lfu.is_empty());
    assert_eq!(lfu.len(), 0);
}

#[test]
fn many_entries_outgrow_the_table() {
    let mut lfu = LfuCache::with_capacity(5000);
    for i in 0..5000u32 {
        lfu.put(i, i + 1);
    }
    for i in 0..5000u32 {
        assert_eq!(lfu.peek(&i), Some(&(i + 1)));
    }
    for i in (0..5000u32).step_by(2) {
        assert_eq!(lfu.remove(&i), Some(i + 1));
    }
    assert_eq!(lfu.len(), 2500);
    for i in 0..5000u32 {
        assert_eq!(lfu.contains_key(&i), i % 2 == 1);
    }
}

#[test]
fn peeking_does_not_count() {
    let mut lfu = LfuCache::with_capacity(2);
    lfu.put(1, 10);
    lfu.put(2, 20);
    for _ in 0..5 {
        assert_eq!(lfu.peek(&1), Some(&10));
        assert!(lfu.contains_key(&1));
    }
    assert_eq!(lfu.iter().count(), 2);
    assert_eq!(lfu.evict(), Some((1, 10)));
}

#[test]
fn evict_from_empty() {
    let mut lfu: LfuCache<u32, u32> = LfuCache::with_capacity(2);
    assert_eq!(lfu.evict(), None);
    lfu.put(1, 1);
    assert_eq!(lfu.evict(), Some((1, 1)));
    assert_eq!(lfu.evict(), None);
    assert!(lfu.is_empty());
}

#[test]
fn eviction_goes_by_count_then_recency() {
    let mut lfu = LfuCache::with_capacity(5);
    for i in 1..=5 {
        lfu.put(i, i);
    }
    // Counts: 1 -> 3, 2 -> 2, 3 -> 2, 4 -> 1, 5 -> 1, with 3 used before 2.
    lfu.get(&1);
    lfu.get(&1);
    lfu.get(&3);
    lfu.get(&2);
    assert_eq!(drain(lfu), [4, 5, 3, 2, 1]);
}

#[test]
fn a_use_moves_a_key_behind_its_equals() {
    let mut lfu = LfuCache::with_capacity(3);
    lfu.put(1, 1);
    lfu.put(2, 2);
    lfu.put(3, 3);
    lfu.get(&1);
    lfu.get(&2);
    lfu.get(&3);
    lfu.get(&1);
    assert_eq!(drain(lfu), [2, 3, 1]);
}

#[test]
fn a_new_key_displaces_one_entry_only() {
    let mut lfu = LfuCache::with_capacity(3);
    for i in 1..=3 {
        lfu.put(i, i * 10);
    }
    lfu.get(&1);
    lfu.put(4, 40);
    assert_eq!(lfu.peek(&1), Some(&10));
    assert_eq!(lfu.peek(&2), None);
    assert_eq!(lfu.peek(&3), Some(&30));
    assert_eq!(lfu.peek(&4), Some(&40));
    assert_eq!(lfu.len(), 3);
}

#[test]
fn put_reads_back() {
    let mut lfu = LfuCache::with_capacity(2);
    assert_eq!(lfu.put(7, 70), None);
    assert_eq!(lfu.peek(&7), Some(&70));
    assert_eq!(lfu.put(7, 71), Some(70));
    assert_eq!(lfu.peek(&7), Some(&71));
}

#[test]
fn remove_undoes_put() {
    let mut lfu = LfuCache::with_capacity(3);
    lfu.put(1, 1);
    lfu.put(2, 2);
    lfu.get(&1);
    assert_eq!(lfu.put(3, 3), None);
    assert_eq!(lfu.remove(&3), Some(3));
    assert_eq!(keys_of(&lfu), [1, 2]);
    assert_eq!(drain(lfu), [2, 1]);
}

#[test]
fn iteration_is_in_insertion_order() {
    let mut lfu = LfuCache::with_capacity(4);
    for i in 1..=4 {
        lfu.put(i, i * 10);
    }
    lfu.remove(&2);
    lfu.put(5, 50);
    lfu.put(1, 11);
    lfu.get(&3);
    assert_eq!(keys_of(&lfu), [1, 3, 4, 5]);
    assert_eq!(lfu.values().copied().collect::<Vec<_>>(), [11, 30, 40, 50]);
    assert_eq!(
        lfu.iter().map(|(k, v)| (*k, *v)).collect::<Vec<_>>(),
        [(1, 11), (3, 30), (4, 40), (5, 50)]
    );

    // 4 is evicted: it has been used once and came before 5.
    lfu.put(6, 60);
    assert_eq!(keys_of(&lfu), [1, 3, 5, 6]);
    assert_eq!(lfu.into_iter().collect::<Vec<_>>(), [(1, 11), (3, 30), (5, 50), (6, 60)]);
}

#[test]
fn iterators_know_their_length() {
    let mut lfu = LfuCache::with_capacity(4);
    for i in 1..=3 {
        lfu.put(i, i);
    }
    assert_eq!(lfu.iter().len(), 3);
    assert_eq!(lfu.keys().len(), 3);
    assert_eq!(lfu.values().len(), 3);
    assert_eq!(lfu.iter_mut().len(), 3);
    assert_eq!(lfu.values_mut().len(), 3);

    let mut iter = lfu.iter();
    iter.next();
    assert_eq!(iter.size_hint(), (2, Some(2)));
    iter.next();
    iter.next();
    assert_eq!(iter.next(), None);
    assert_eq!(iter.next(), None);
    assert_eq!(iter.size_hint(), (0, Some(0)));

    let mut owned = lfu.into_iter();
    assert_eq!(owned.len(), 3);
    assert_eq!(owned.next(), Some((1, 1)));
    assert_eq!(owned.len(), 2);
}

#[test]
fn iteration_from_both_ends() {
    let mut lfu = LfuCache::with_capacity(5);
    for i in 1..=5 {
        lfu.put(i, i);
    }
    lfu.remove(&3);
    let mut iter = lfu.iter();
    assert_eq!(iter.next(), Some((&1, &1)));
    assert_eq!(iter.next_back(), Some((&5, &5)));
    assert_eq!(iter.next_back(), Some((&4, &4)));
    assert_eq!(iter.next(), Some((&2, &2)));
    assert_eq!(iter.next(), None);
    assert_eq!(iter.next_back(), None);
    assert_eq!(lfu.iter().rev().map(|(k, _)| *k).collect::<Vec<_>>(), [5, 4, 2, 1]);
}

#[test]
fn mutable_iteration_writes_values() {
    let mut lfu = LfuCache::with_capacity(4);
    for i in 1..=4 {
        lfu.put(i, i);
    }
    lfu.remove(&1);
    lfu.put(9, 9);
    for (key, value) in lfu.iter_mut() {
        *value = *key * 100;
    }
    assert_eq!(lfu.values().copied().collect::<Vec<_>>(), [200, 300, 400, 900]);
    for value in lfu.values_mut() {
        *value += 1;
    }
    for (_, value) in &mut lfu {
        *value += 1;
    }
    let mut sum = 0;
    for (_, value) in &lfu {
        sum += *value;
    }
    assert_eq!(sum, 202 + 302 + 402 + 902);
    assert_eq!(lfu.peek(&9), Some(&902));
    // Iterating is no use: the order of eviction is that of insertion.
    assert_eq!(drain(lfu), [2, 3, 4, 9]);
}

#[test]
fn iterating_over_nothing() {
    let mut lfu: LfuCache<u32, u32> = LfuCache::with_capacity(2);
    assert_eq!(lfu.iter().next(), None);
    assert_eq!(lfu.iter().next_back(), None);
    assert_eq!(lfu.keys().next(), None);
    assert!(lfu.iter_mut().next().is_none());
    assert!(lfu.values_mut().next().is_none());
    assert_eq!(lfu.into_iter().next(), None);
}

#[test]
fn clear_starts_afresh() {
    let mut lfu = LfuCache::with_capacity(3).age_after(3);
    for i in 1..=3 {
        lfu.put(i, i);
    }
    lfu.get(&1);
    lfu.clear();
    assert!(lfu.is_empty());
    assert_eq!(lfu.capacity(), 3);
    assert_eq!(lfu.peek(&1), None);
    assert_eq!(lfu.iter().next(), None);
    for i in 4..=6 {
        assert_eq!(lfu.put(i, i), None);
    }
    assert_eq!(keys_of(&lfu), [4, 5, 6]);
    assert_eq!(drain(lfu), [4, 5, 6]);
}

#[test]
fn clones_go_their_own_ways() {
    let mut lfu = LfuCache::with_capacity(3);
    for i in 1..=3 {
        lfu.put(i, i * 10);
    }
    lfu.get(&1);
    lfu.remove(&2);
    let mut copy = lfu.clone();
    assert_eq!(copy.capacity(), 3);
    assert_eq!(keys_of(&copy), [1, 3]);
    copy.put(4, 40);
    copy.put(1, 11);
    assert_eq!(lfu.peek(&1), Some(&10));
    assert_eq!(lfu.peek(&4), None);
    assert_eq!(copy.peek(&3), Some(&30));
    assert_eq!(drain(copy), [3, 4, 1]);
    assert_eq!(drain(lfu), [3, 1]);
}

#[test]
fn get_or_insert_of_a_present_key_is_a_use() {
    let mut lfu = LfuCache::with_capacity(2);
    lfu.put(1, 10);
    lfu.put(2, 20);
    assert_eq!(lfu.get_or_insert(1, 99), &10);
    assert_eq!(lfu.get_or_insert_with(1, || 98), &10);
    assert_eq!(lfu.get_or_insert(3, 30), &30);
    assert_eq!(keys_of(&lfu), [1, 3]);
}

#[test]
fn aging_halves_counts() {
    // The fourth operation ends the interval, and halves the count of 1 from 3 to 1.
    let mut lfu = LfuCache::with_capacity(2).age_after(4);
    lfu.put(1, 1);
    lfu.get(&1);
    lfu.get(&1);
    lfu.put(2, 2);
    // Both have count 1 now; one use is enough to put 2 behind 1.
    lfu.get(&2);
    assert_eq!(drain(lfu), [1, 2]);

    // Without aging the same uses leave 1 ahead.
    let mut lfu = LfuCache::with_capacity(2);
    lfu.put(1, 1);
    lfu.get(&1);
    lfu.get(&1);
    lfu.put(2, 2);
    lfu.get(&2);
    assert_eq!(drain(lfu), [2, 1]);
}

#[test]
fn ties_made_by_aging_go_by_last_use() {
    // The third operation halves the counts 3 and 2 to 1 and 1; key 1 was used less recently.
    let mut lfu = LfuCache::with_capacity(4);
    lfu.put(1, 1);
    lfu.put(2, 2);
    let mut lfu = lfu.age_after(3);
    lfu.get(&1);
    lfu.get(&1);
    lfu.get(&2);
    assert_eq!(lfu.evict(), Some((1, 1)));
    assert_eq!(lfu.len(), 1);
    assert!(lfu.contains_key(&2));
}

#[test]
fn aging_sorts_all_ties() {
    // Counts before aging: 3 -> 1, 2 -> 2, 1 -> 3; afterwards all are 1, and 2 was used last.
    let mut lfu = LfuCache::with_capacity(3).age_after(6);
    lfu.put(1, 1);
    lfu.get(&1);
    lfu.get(&1);
    lfu.put(2, 2);
    lfu.put(3, 3);
    lfu.get(&2);
    assert_eq!(drain(lfu.clone()), [1, 3, 2]);
    lfu.get(&3);
    assert_eq!(drain(lfu), [1, 2, 3]);
}

#[test]
fn aging_merges_some_counts() {
    // Counts before aging: 4 -> 1, 3 -> 2, 2 -> 4, 1 -> 5; afterwards 1, 1, 2 and 2.
    let mut lfu = LfuCache::with_capacity(4).age_after(12);
    for i in 1..=4 {
        lfu.put(i, i);
    }
    for _ in 0..3 {
        lfu.get(&2);
    }
    for _ in 0..4 {
        lfu.get(&1);
    }
    lfu.get(&3);
    let mut lfu = lfu.age_after(0);
    assert_eq!(drain(lfu.clone()), [4, 3, 2, 1]);
    // One use brings 3 level with 2 and 1, and behind them.
    lfu.get(&3);
    assert_eq!(drain(lfu.clone()), [4, 2, 1, 3]);
    lfu.get(&2);
    assert_eq!(drain(lfu), [4, 1, 3, 2]);
}

#[test]
fn intervals_repeat() {
    let mut lfu = LfuCache::with_capacity(2).age_after(2);
    lfu.put(1, 1);
    lfu.get(&1); // 2, halved to 1
    lfu.get(&1);
    lfu.get(&1); // 3, halved to 1
    lfu.put(2, 2);
    lfu.get(&2); // 2, halved to 1
    lfu.get(&2); // 2
    assert_eq!(drain(lfu), [1, 2]);
}

#[test]
fn removing_ticks() {
    // The fourth operation is the removal: it halves the count of 1 from 4 to 2.
    let mut lfu = LfuCache::with_capacity(4);
    lfu.put(1, 1);
    lfu.put(2, 2);
    lfu.put(3, 3);
    let mut lfu = lfu.age_after(4);
    lfu.get(&1);
    lfu.get(&1);
    lfu.get(&1);
    assert_eq!(lfu.remove(&3), Some(3));
    lfu.get(&2);
    assert_eq!(lfu.evict(), Some((1, 1)));
    assert!(lfu.contains_key(&2));
}

#[test]
fn evicting_ticks() {
    // The third operation is the eviction: it halves the count of 1 from 3 to 1.
    let mut lfu = LfuCache::with_capacity(3);
    lfu.put(1, 1);
    lfu.put(2, 2);
    lfu.put(3, 3);
    let mut lfu = lfu.age_after(3);
    lfu.get(&1);
    lfu.get(&1);
    assert_eq!(lfu.evict(), Some((2, 2)));
    lfu.get(&3);
    assert_eq!(drain(lfu), [1, 3]);
}

#[test]
fn a_put_that_evicts_ticks_once() {
    let mut lfu = LfuCache::with_capacity(2);
    lfu.put(1, 1);
    lfu.put(2, 2);
    let mut lfu = lfu.age_after(4);
    lfu.get(&1);
    lfu.get(&1);
    lfu.put(3, 3);
    // Three operations so far: 1 has still been used three times.
    assert_eq!(drain(lfu.clone()), [3, 1]);
    // The fourth halves 3 to 1 and 2 to 1; 1 was used less recently.
    lfu.get(&3);
    assert_eq!(drain(lfu), [1, 3]);
}

#[test]
fn missing_and_peeking_do_not_tick() {
    let mut lfu = LfuCache::with_capacity(4).age_after(5);
    lfu.put(1, 1);
    lfu.get(&1);
    lfu.get(&1);
    lfu.put(2, 2);
    // Four operations so far: none of these is the fifth.
    assert_eq!(lfu.get(&9), None);
    assert_eq!(lfu.get_mut(&9), None);
    assert_eq!(lfu.remove(&9), None);
    assert_eq!(lfu.peek(&1), Some(&1));
    assert!(lfu.contains_key(&2));
    assert_eq!(lfu.iter().count(), 2);
    assert_eq!(drain(lfu.clone()), [2, 1]);
    // The fifth halves all counts to 1.
    lfu.get(&2);
    assert_eq!(drain(lfu), [1, 2]);
}

#[test]
fn no_interval_by_zero() {
    let mut lfu = LfuCache::with_capacity(2).age_after(1).age_after(0);
    lfu.put(1, 1);
    for _ in 0..10 {
        lfu.get(&1);
    }
    lfu.put(2, 2);
    lfu.get(&2);
    assert_eq!(drain(lfu), [2, 1]);
}

#[test]
fn a_new_interval_starts_counting_afresh() {
    let mut lfu = LfuCache::with_capacity(2).age_after(3);
    lfu.put(1, 1);
    lfu.get(&1);
    let mut lfu = lfu.age_after(3);
    lfu.get(&1);
    // Count of 1 is 3 now, after one operation of the new interval.
    lfu.put(2, 2);
    lfu.get(&2); // halves 3 to 1 and 2 to 1
    lfu.get(&2);
    assert_eq!(drain(lfu), [1, 2]);
}

#[test]
fn a_use_of_the_only_entry_counts() {
    let mut lfu = LfuCache::with_capacity(2);
    lfu.put(1, 1);
    lfu.get(&1);
    lfu.put(2, 2);
    lfu.put(3, 3);
    assert_eq!(keys_of(&lfu), [1, 3]);

    // The second operation halves the count of 2 back to 1.
    let mut lfu = LfuCache::with_capacity(2).age_after(2);
    lfu.put(1, 1);
    lfu.get(&1);
    lfu.put(2, 2);
    lfu.put(3, 3);
    assert_eq!(keys_of(&lfu), [2, 3]);
}

#[test]
fn the_only_entry_is_overwritten() {
    let mut lfu = LfuCache::with_capacity(1);
    lfu.put(1, 10);
    assert_eq!(lfu.put(1, 20), Some(10));
    assert_eq!(lfu.peek(&1), Some(&20));
    *lfu.get_mut(&1).unwrap() = 30;
    assert_eq!(lfu.peek(&1), Some(&30));
    assert_eq!(lfu.len(), 1);
}

#[test]
fn a_put_leaves_other_counts() {
    let mut lfu = LfuCache::with_capacity(3);
    lfu.put(1, 1);
    lfu.get(&1);
    lfu.put(2, 2);
    lfu.put(2, 20);
    lfu.put(2, 200);
    lfu.put(3, 3);
    lfu.put(4, 4);
    // The counts are 2, 3 and 1.
    assert_eq!(drain(lfu), [4, 1, 2]);

    // The sixth operation, an overwrite, halves the counts 4 and 2 to 2 and 1.
    let mut lfu = LfuCache::with_capacity(3).age_after(6);
    lfu.put(1, 1);
    lfu.get(&1);
    lfu.get(&1);
    lfu.get(&1);
    lfu.put(2, 2);
    lfu.put(2, 20);
    lfu.get(&2);
    // Both counts are 2; key 1 was used less recently.
    assert_eq!(drain(lfu), [1, 2]);
}

#[test]
fn last_uses_are_kept_through_removal_and_eviction() {
    let mut lfu = LfuCache::with_capacity(5);
    for key in 1..=5 {
        lfu.put(key, key);
    }
    lfu.remove(&3);
    assert_eq!(lfu.evict(), Some((1, 1)));
    lfu.put(6, 6);
    assert_eq!(drain(lfu), [2, 4, 5, 6]);
}

/// A key that is equal to every other.
struct Any(u32);

impl PartialEq for Any {
    fn eq(&self, _: &Self) -> bool {
        true
    }
}

impl Eq for Any {}

impl Hash for Any {
    fn hash<H: Hasher>(&self, _: &mut H) {}
}

#[test]
fn equal_keys_share_an_entry() {
    let mut lfu = LfuCache::with_capacity(3);
    assert_eq!(lfu.put(Any(1), 10), None);
    assert_eq!(lfu.put(Any(2), 20), Some(10));
    assert_eq!(lfu.len(), 1);
    *lfu.get_mut(&Any(3)).unwrap() = 30;
    assert_eq!(lfu.get(&Any(4)), Some(&30));
    assert!(lfu.contains_key(&Any(5)));
    // The entry keeps the key that it was made with.
    let (key, value) = lfu.evict().unwrap();
    assert_eq!((key.0, value), (1, 30));
}

/// A key that is equal to none, not even to itself.
struct Nothing(u32);

impl PartialEq for Nothing {
    fn eq(&self, _: &Self) -> bool {
        false
    }
}

impl Eq for Nothing {}

impl Hash for Nothing {
    fn hash<H: Hasher>(&self, _: &mut H) {}
}

#[test]
fn keys_equal_to_none_are_not_found() {
    let mut lfu = LfuCache::with_capacity(2);
    assert_eq!(lfu.put(Nothing(1), 1), None);
    assert_eq!(lfu.put(Nothing(1), 2), None);
    assert_eq!(lfu.put(Nothing(1), 3), None);
    assert_eq!(lfu.len(), 2);
    assert!(lfu.get_mut(&Nothing(1)).is_none());
    assert!(!lfu.contains_key(&Nothing(1)));
    assert_eq!(lfu.remove(&Nothing(1)), None);
    assert_eq!(lfu.iter().map(|(k, v)| (k.0, *v)).collect::<Vec<_>>(), [(1, 2), (1, 3)]);
}

#[test]
fn an_empty_shelf() {
    let slot = FreqSlot::new(7);
    assert_eq!(slot.count, 7);
    assert_eq!(slot.head, u32::MAX);
    assert_eq!(slot.tail, u32::MAX);
    assert_eq!(slot.prev_slot, u32::MAX);
    assert_eq!(slot.next_slot, u32::MAX);
}

/// A plain list of keys with counts and times of last use, to hold the cache against.
struct Plain {
    capacity: usize,
    interval: usize,
    ops: usize,
    now: u64,
    entries: Vec<PlainEntry>,
}

struct PlainEntry {
    key: u32,
    value: u32,
    count: u64,
    last: u64,
}

impl Plain {
    fn find(&self, key: u32) -> Option<usize> {
        self.entries.iter().position(|e| e.key == key)
    }

    fn tick(&mut self) {
        if self.interval == 0 {
            return;
        }
        self.ops += 1;
        if self.ops >= self.interval {
            self.ops = 0;
            for entry in self.entries.iter_mut() {
                entry.count = (entry.count / 2).max(1);
            }
        }
    }

    fn get(&mut self, key: u32) -> Option<u32> {
        let i = self.find(key)?;
        self.now += 1;
        self.entries[i].count += 1;
        self.entries[i].last = self.now;
        self.tick();
        Some(self.entries[i].value)
    }

    fn remove(&mut self, key: u32) -> Option<u32> {
        let i = self.find(key)?;
        let entry = self.entries.remove(i);
        self.tick();
        Some(entry.value)
    }

    fn pop(&mut self) -> Option<(u32, u32)> {
        let key = self.entries.iter().min_by_key(|e| (e.count, e.last))?.key;
        let i = self.find(key)?;
        let entry = self.entries.remove(i);
        Some((entry.key, entry.value))
    }

    fn evict(&mut self) -> Option<(u32, u32)> {
        let pair = self.pop()?;
        self.tick();
        Some(pair)
    }

    fn put(&mut self, key: u32, value: u32) -> Option<u32> {
        if let Some(i) = self.find(key) {
            let previous = self.entries[i].value;
            self.entries[i].value = value;
            self.get(key);
            return Some(previous);
        }
        if self.entries.len() >= self.capacity {
            self.pop();
        }
        self.now += 1;
        self.entries.push(PlainEntry { key, value, count: 1, last: self.now });
        self.tick();
        None
    }
}

#[test]
fn random_operations_match_a_plain_list() {
    let mut seed: u64 = 0x9e37_79b9_7f4a_7c15;
    let mut random = move |below: u64| {
        seed ^= seed << 13;
        seed ^= seed >> 7;
        seed ^= seed << 17;
        seed % below
    };
    for interval in [0, 1, 2, 7, 50] {
        for capacity in [1, 2, 3, 8, 20] {
            let mut lfu = LfuCache::with_capacity(capacity).age_after(interval);
            let mut plain = Plain { capacity, interval, ops: 0, now: 0, entries: Vec::new() };
            for step in 0..3000u32 {
                let key = random(30) as u32;
                match random(10) {
                    0 => assert_eq!(lfu.remove(&key), plain.remove(key)),
                    1 => assert_eq!(lfu.evict(), plain.evict()),
                    2 | 3 | 4 => assert_eq!(lfu.put(key, step), plain.put(key, step)),
                    5 => assert_eq!(lfu.get_mut(&key).copied(), plain.get(key)),
                    6 => assert_eq!(
                        lfu.peek(&key).copied(),
                        plain.entries.iter().find(|e| e.key == key).map(|e| e.value)
                    ),
                    _ => assert_eq!(lfu.get(&key).copied(), plain.get(key)),
                }
                assert_eq!(lfu.len(), plain.entries.len());
            }
            assert_eq!(
                lfu.iter().map(|(k, v)| (*k, *v)).collect::<Vec<_>>(),
                plain.entries.iter().map(|e| (e.key, e.value)).collect::<Vec<_>>()
            );
            let mut order = Vec::new();
            while let Some((key, _)) = plain.pop() {
                order.push(key);
            }
            assert_eq!(drain(lfu), order);
        }
    }
}
