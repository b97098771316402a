use unibus::read_cache::ReadResponseCache;

#[test]
fn test_insert_and_get() {
    let mut cache = ReadResponseCache::new(10, 5000);
    let key = (1u16, 42u64);
    let response = vec![1, 2, 3, 4];

    cache.insert(key, response.clone(), 0);
    let result = cache.get(key, 0);
    assert!(result.is_some());
    assert_eq!(result.unwrap(), response);

    // Non-existent key
    assert!(cache.get((2, 99), 0).is_none());
}

#[test]
fn test_capacity_eviction() {
    let mut cache = ReadResponseCache::new(3, 60000);

    // Insert 3 entries
    cache.insert((1, 1), vec![1], 0);
    cache.insert((1, 2), vec![2], 0);
    cache.insert((1, 3), vec![3], 0);
    assert_eq!(cache.len(), 3);

    // Access entry (1,1) to make it recently used
    let _ = cache.get((1, 1), 0);

    // Insert a 4th — should evict (1,2) as LRU
    cache.insert((1, 4), vec![4], 0);
    assert_eq!(cache.len(), 3);
    assert!(cache.get((1, 2), 0).is_none()); // evicted
    assert!(cache.get((1, 1), 0).is_some()); // still present (accessed recently)
    assert!(cache.get((1, 3), 0).is_some());
    assert!(cache.get((1, 4), 0).is_some());
}

#[test]
fn test_expired_entries() {
    let mut cache = ReadResponseCache::new(10, 50);
    cache.insert((1, 1), vec![1], 0);

    // Should be available immediately
    assert!(cache.get((1, 1), 0).is_some());

    // Wait for expiry
    let later = 60;

    // Should be expired now
    assert!(cache.get((1, 1), later).is_none());
}

#[test]
fn test_remove_expired() {
    let mut cache = ReadResponseCache::new(10, 50);
    cache.insert((1, 1), vec![1], 0);
    cache.insert((1, 2), vec![2], 0);

    let later = 60;

    cache.remove_expired(later);
    assert_eq!(cache.len(), 0);
}

#[test]
fn test_clear() {
    let mut cache = ReadResponseCache::new(10, 5000);
    cache.insert((1, 1), vec![1], 0);
    cache.insert((1, 2), vec![2], 0);
    assert_eq!(cache.len(), 2);
    cache.clear();
    assert!(cache.is_empty());
}
