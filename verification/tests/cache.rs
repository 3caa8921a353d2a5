use lfu_light::{LfuCache, DEFAULT_CAPACITY};

#[test]
fn puts() {
    let mut lfu = LfuCache::with_capacity(4);
    assert_eq!(lfu.put(1, 1), None);
    assert_eq!(lfu.get(&1), Some(&1));
    assert_eq!(lfu.put(1, 2), Some(1), "put returns the old value");
    assert_eq!(lfu.get(&1), Some(&2));
    assert_eq!(lfu.len(), 1, "overwriting keys does not grow the cache");
}

#[test]
fn puts_low_capacity() {
    let mut lfu = LfuCache::with_capacity(1);
    for i in 0..1000 {
        lfu.put(i, i);
        assert_eq!(lfu.len(), 1);
        assert!(lfu.contains_key(&i));
    }
}

#[test]
fn miss() {
    let mut lfu: LfuCache<u32, u32> = LfuCache::with_capacity(4);
    assert_eq!(lfu.get(&1), None);
    assert_eq!(lfu.get_mut(&1), None);
    assert_eq!(lfu.remove(&1), None);
    assert!(!lfu.contains_key(&1));
    assert!(lfu.is_empty());
}

#[test]
fn get_mut() {
    let mut lfu = LfuCache::with_capacity(4);
    lfu.put(1, 1);
    assert_eq!(lfu.get(&1), Some(&1));
    *lfu.get_mut(&1).expect("valid") = 12;
    assert_eq!(lfu.get(&1), Some(&12));
}

#[test]
fn get_or_insert() {
    let mut lfu = LfuCache::with_capacity(2);
    lfu.put(1, 1);
    let value = lfu.get_or_insert(2, 4);
    assert_eq!(value, &4);
    assert_eq!(lfu.len(), 2);
}

#[test]
fn get_or_insert_with() {
    let mut lfu = LfuCache::with_capacity(2);
    lfu.put(1, 1);
    let value = lfu.get_or_insert_with(2, || 4);
    assert_eq!(value, &4);
    assert_eq!(lfu.len(), 2);
}

#[test]
fn capacity() {
    let empty: LfuCache<u32, u32> = LfuCache::with_capacity(0);
    assert_eq!(empty.capacity(), 1, "capacity is clamped to 1");

    let custom: LfuCache<u32, u32> = LfuCache::with_capacity(8192);
    assert_eq!(custom.capacity(), 8192);

    let default_size: LfuCache<u32, u32> = LfuCache::new();
    assert_eq!(default_size.capacity(), DEFAULT_CAPACITY);
}

#[test]
fn capped_at_capacity() {
    for capacity in [1, 2, 4, 8, 64, 1827] {
        let mut lfu = LfuCache::with_capacity(capacity);
        for i in 0..10_000 {
            lfu.put(i, i);
            assert!(lfu.len() <= capacity, "exceeded capacity");
        }

        assert_eq!(lfu.len(), capacity);
    }
}

#[test]
fn punt_lfu_entry() {
    let mut lfu = LfuCache::with_capacity(4);
    lfu.put(1, 1);
    lfu.put(2, 2);
    lfu.put(3, 3);
    lfu.put(4, 4);

    for _ in 0..10 {
        lfu.get(&1);
        lfu.get(&2);
        lfu.get(&3);
    }

    lfu.put(5, 5);
    assert!(!lfu.contains_key(&4));
    assert_eq!(lfu.get(&1), Some(&1));
    assert_eq!(lfu.get(&2), Some(&2));
    assert_eq!(lfu.get(&3), Some(&3));
    assert_eq!(lfu.get(&5), Some(&5));
}

#[test]
fn punt_lru_of_lfu() {
    let mut lfu = LfuCache::with_capacity(4);
    lfu.put(1, 1);
    lfu.put(2, 2);
    lfu.put(3, 3);
    lfu.put(4, 4);
    lfu.put(5, 5);
    assert!(!lfu.contains_key(&1));
    for i in 2..5 {
        assert!(lfu.contains_key(&i));
    }
}

#[test]
fn update_bumps_frequency() {
    let mut lfu = LfuCache::with_capacity(2);
    lfu.put(1, 1);
    lfu.put(2, 2);
    lfu.put(1, 100);
    lfu.put(3, 3);
    assert!(!lfu.contains_key(&2));
    assert!(lfu.contains_key(&1));
}

#[test]
fn remove_from_middle() {
    let mut lfu = LfuCache::with_capacity(8);
    for i in 0..5 {
        lfu.put(i, i);
    }

    assert_eq!(lfu.remove(&2), Some(2));
    assert_eq!(lfu.len(), 4);

    for i in [0, 1, 3, 4] {
        assert!(lfu.contains_key(&i));
    }
}

#[test]
fn hot_entries() {
    let mut lfu = LfuCache::with_capacity(2);
    lfu.put(1, 1);
    lfu.put(2, 2);

    for _ in 0..100_000 {
        assert_eq!(lfu.get(&1), Some(&1));
    }

    lfu.put(3, 3);
    assert!(!lfu.contains_key(&2));
}

#[test]
fn evict() {
    let mut lfu = LfuCache::with_capacity(2);
    lfu.put(1, 1);
    lfu.put(2, 2);
    lfu.get(&1);
    assert_eq!(lfu.evict(), Some((2, 2)));
    assert_eq!(lfu.len(), 1);
}

#[test]
fn iteration() {
    let mut lfu = LfuCache::with_capacity(4);
    for i in 1..5 {
        lfu.put(i, i);
    }

    let entries: Vec<_> = lfu.iter().map(|(k, v)| (*k, *v)).collect();
    assert_eq!(entries, [(1, 1), (2, 2), (3, 3), (4, 4)]);

    lfu.remove(&2);
    lfu.remove(&4);
    let entries: Vec<_> = lfu.iter().map(|(k, v)| (*k, *v)).collect();
    assert_eq!(entries, [(1, 1), (3, 3)]);
}
