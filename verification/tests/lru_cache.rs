use lib::lru_cache::LRUCache;

#[test]
fn capacity_two_scenario() {
    let mut cache = LRUCache::new(2);
    cache.put(1, 1);
    cache.put(2, 2);
    assert_eq!(cache.get(1), 1);
    cache.put(3, 3);
    assert_eq!(cache.get(2), -1);
    cache.put(4, 4);
    assert_eq!(cache.get(1), -1);
    assert_eq!(cache.get(3), 3);
    assert_eq!(cache.get(4), 4);
}

#[test]
fn missing_key_reads_minus_one() {
    let mut cache = LRUCache::new(3);
    assert_eq!(cache.get(7), -1);
}

#[test]
fn put_overwrites_and_refreshes() {
    let mut cache = LRUCache::new(2);
    cache.put(1, 10);
    cache.put(2, 20);
    cache.put(1, 11);
    cache.put(3, 30);
    assert_eq!(cache.get(2), -1);
    assert_eq!(cache.get(1), 11);
    assert_eq!(cache.get(3), 30);
}

#[test]
fn get_after_put_returns_written_value() {
    let mut cache = LRUCache::new(1);
    cache.put(5, 50);
    assert_eq!(cache.get(5), 50);
    cache.put(6, 60);
    assert_eq!(cache.get(5), -1);
    assert_eq!(cache.get(6), 60);
}

#[test]
fn get_refreshes_recency() {
    let mut cache = LRUCache::new(3);
    cache.put(1, 1);
    cache.put(2, 2);
    cache.put(3, 3);
    assert_eq!(cache.get(1), 1);
    cache.put(4, 4);
    assert_eq!(cache.get(2), -1);
    assert_eq!(cache.get(1), 1);
    assert_eq!(cache.get(3), 3);
    assert_eq!(cache.get(4), 4);
}

#[test]
fn many_evictions_keep_capacity() {
    let mut cache = LRUCache::new(3);
    for k in 0..100 {
        cache.put(k, k * 2);
    }
    assert_eq!(cache.get(96), -1);
    assert_eq!(cache.get(97), 194);
    assert_eq!(cache.get(98), 196);
    assert_eq!(cache.get(99), 198);
}

#[test]
fn negative_keys_and_values() {
    let mut cache = LRUCache::new(2);
    cache.put(-1, -5);
    cache.put(0, 0);
    assert_eq!(cache.get(-1), -5);
    assert_eq!(cache.get(0), 0);
}
