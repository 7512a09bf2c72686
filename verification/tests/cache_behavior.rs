use mass_storage::cache::{CacheEntry, LruCache};

fn block_data(fill: u8) -> Vec<u8> {
    vec![fill; 512]
}

#[test]
fn lru_insertion_evicts_the_least_recently_used() {
    let mut cache = LruCache::new(2);
    assert_eq!(cache.capacity(), 2);
    assert!(cache.put(10, block_data(1), false).is_none());
    assert!(cache.put(20, block_data(2), false).is_none());
    assert_eq!(cache.len(), 2);
    // block 10 is the least recently used and leaves first
    let evicted = cache.put(30, block_data(3), false).expect("a full cache evicts");
    assert_eq!(evicted.block, 10);
    assert_eq!(evicted.data, block_data(1));
    assert!(!evicted.dirty);
    assert!(!cache.contains(10));
    assert!(cache.contains(20) && cache.contains(30));
}

#[test]
fn lru_hits_refresh_recency() {
    let mut cache = LruCache::new(2);
    assert!(cache.put(10, block_data(1), false).is_none());
    assert!(cache.put(20, block_data(2), false).is_none());
    // touching block 10 makes block 20 the eviction victim
    assert_eq!(cache.get_copy(10), Some(block_data(1)));
    let evicted = cache.put(30, block_data(3), false).expect("a full cache evicts");
    assert_eq!(evicted.block, 20);
}

#[test]
fn lru_updates_keep_one_entry_per_block() {
    let mut cache = LruCache::new(4);
    assert!(cache.put(7, block_data(1), false).is_none());
    // writing the same block again replaces the entry instead of adding one
    assert!(cache.put(7, block_data(9), true).is_none());
    assert_eq!(cache.len(), 1);
    assert_eq!(cache.get_copy(7), Some(block_data(9)));
    let entries = cache.take_all();
    assert_eq!(entries.len(), 1);
    assert_eq!(entries[0].block, 7);
    assert!(entries[0].dirty);
    assert_eq!(cache.len(), 0);
}

#[test]
fn cache_entry_constructors_copy_the_given_bytes() {
    let entry = CacheEntry::new(3, block_data(0xEE), true);
    assert_eq!(entry.block, 3);
    assert_eq!(entry.data, block_data(0xEE));
    assert!(entry.dirty);

    let mut long = block_data(0x00);
    long.extend_from_slice(&block_data(0xCC));
    let entry = CacheEntry::from_vec(9, &long, 512, false);
    assert_eq!(entry.block, 9);
    assert_eq!(entry.data, block_data(0xCC));
    assert!(!entry.dirty);
}
