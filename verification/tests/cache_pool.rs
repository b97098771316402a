use unibus::cache_pool::CachePool;
use unibus::region::RegionTable;
use unibus::sub_alloc::SubAllocator;
use unibus::types::{RegionId, RegionInfo, RegionState};

fn make_pool(max_bytes: u64) -> CachePool {
    CachePool::new(SubAllocator::new(0, max_bytes * 2), max_bytes)
}

fn make_pool_with_region_table(max_bytes: u64) -> (CachePool, RegionTable) {
    let pool = CachePool::with_region_table(SubAllocator::new(0, max_bytes * 2), max_bytes);
    (pool, RegionTable::new())
}

fn make_region_info(region_id: RegionId, state: RegionState) -> RegionInfo {
    RegionInfo {
        region_id,
        home_node_id: 1,
        device_id: 0,
        mr_handle: 0,
        base_offset: 0,
        len: 1024,
        epoch: 0,
        state,
        local_mr_handle: None,
    }
}

#[test]
fn test_cache_pool_insert_and_lookup() {
    let mut pool = make_pool(4096);
    let mut rt = RegionTable::new();
    let entry = pool.insert(RegionId(1), 1024, 0, &mut rt).unwrap();
    assert_eq!(entry.region_id, RegionId(1));
    assert_eq!(entry.epoch, 0);

    let found = pool.lookup(RegionId(1)).unwrap();
    assert_eq!(found.region_id, RegionId(1));
    assert_eq!(found.pool_offset, entry.pool_offset);
}

#[test]
fn test_cache_pool_miss() {
    let mut pool = make_pool(4096);
    assert!(pool.lookup(RegionId(99)).is_none());
}

#[test]
fn test_cache_pool_eviction() {
    let mut pool = make_pool(2048); // Only fits 2 entries of 1024
    let mut rt = RegionTable::new();

    pool.insert(RegionId(1), 1024, 0, &mut rt).unwrap();
    pool.insert(RegionId(2), 1024, 0, &mut rt).unwrap();

    // Inserting a third should evict the LRU (region 1)
    pool.insert(RegionId(3), 1024, 0, &mut rt).unwrap();

    assert!(pool.lookup(RegionId(1)).is_none()); // evicted
    assert!(pool.lookup(RegionId(2)).is_some()); // still there
    assert!(pool.lookup(RegionId(3)).is_some()); // just inserted
}

#[test]
fn test_cache_pool_remove() {
    let mut pool = make_pool(4096);
    let mut rt = RegionTable::new();
    pool.insert(RegionId(1), 1024, 0, &mut rt).unwrap();
    let removed = pool.remove(RegionId(1)).unwrap();
    assert_eq!(removed.region_id, RegionId(1));
    assert!(pool.lookup(RegionId(1)).is_none());
}

#[test]
fn test_cache_pool_update_epoch() {
    let mut pool = make_pool(4096);
    let mut rt = RegionTable::new();
    pool.insert(RegionId(1), 1024, 0, &mut rt).unwrap();
    assert!(pool.update_epoch(RegionId(1), 5));
    let found = pool.lookup(RegionId(1)).unwrap();
    assert_eq!(found.epoch, 5);
    assert!(!pool.update_epoch(RegionId(99), 1));
}

#[test]
fn test_cache_pool_access_updates_lru() {
    let mut pool = make_pool(2048);
    let mut rt = RegionTable::new();

    pool.insert(RegionId(1), 1024, 0, &mut rt).unwrap();
    pool.insert(RegionId(2), 1024, 0, &mut rt).unwrap();

    // Access region 1 (making it more recent)
    let _ = pool.lookup(RegionId(1));

    // Inserting a third should evict the LRU (region 2, since we just accessed region 1)
    pool.insert(RegionId(3), 1024, 0, &mut rt).unwrap();

    assert!(pool.lookup(RegionId(1)).is_some()); // recently accessed
    assert!(pool.lookup(RegionId(2)).is_none()); // evicted (LRU)
    assert!(pool.lookup(RegionId(3)).is_some()); // just inserted
}

#[test]
fn test_lru_eviction_order() {
    // Eviction order strictly follows least-recently-accessed time
    let mut pool = make_pool(3072); // fits 3 entries of 1024
    let mut rt = RegionTable::new();

    pool.insert(RegionId(1), 1024, 0, &mut rt).unwrap();
    pool.insert(RegionId(2), 1024, 0, &mut rt).unwrap();
    pool.insert(RegionId(3), 1024, 0, &mut rt).unwrap();

    // All 3 inserted. Inserting a 4th evicts region 1 (oldest)
    pool.insert(RegionId(4), 1024, 0, &mut rt).unwrap();
    assert!(pool.lookup(RegionId(1)).is_none());
    assert!(pool.lookup(RegionId(2)).is_some());
    assert!(pool.lookup(RegionId(3)).is_some());
    assert!(pool.lookup(RegionId(4)).is_some());

    // Inserting a 5th evicts region 2 (next oldest)
    pool.insert(RegionId(5), 1024, 0, &mut rt).unwrap();
    assert!(pool.lookup(RegionId(2)).is_none());
    assert!(pool.lookup(RegionId(3)).is_some());
    assert!(pool.lookup(RegionId(4)).is_some());
    assert!(pool.lookup(RegionId(5)).is_some());
}

#[test]
fn test_lru_access_updates_order() {
    // Accessing a region makes it the most recently used, preventing eviction
    let mut pool = make_pool(2048);
    let mut rt = RegionTable::new();

    pool.insert(RegionId(1), 1024, 0, &mut rt).unwrap();
    pool.insert(RegionId(2), 1024, 0, &mut rt).unwrap();

    // Access region 1 to make it recent
    let _ = pool.lookup(RegionId(1));

    // Inserting a third should evict region 2 (LRU), not region 1
    pool.insert(RegionId(3), 1024, 0, &mut rt).unwrap();
    assert!(pool.lookup(RegionId(1)).is_some());
    assert!(pool.lookup(RegionId(2)).is_none());

    // Now access region 3, then region 1 again
    let _ = pool.lookup(RegionId(3));
    let _ = pool.lookup(RegionId(1));

    // Inserting a 4th should evict region 3 was accessed before region 1,
    // but after our lookups region 3 was accessed before region 1.
    // Wait: order is 3 accessed, then 1 accessed. So 3 is LRU.
    pool.insert(RegionId(4), 1024, 0, &mut rt).unwrap();
    assert!(pool.lookup(RegionId(1)).is_some()); // most recently accessed
    assert!(pool.lookup(RegionId(3)).is_none()); // evicted
    assert!(pool.lookup(RegionId(4)).is_some());
}

#[test]
fn test_cache_pool_capacity_enforcement() {
    // Pool auto-evicts when capacity would be exceeded
    let mut pool = make_pool(2048);
    let mut rt = RegionTable::new();

    pool.insert(RegionId(1), 1024, 0, &mut rt).unwrap();
    pool.insert(RegionId(2), 1024, 0, &mut rt).unwrap();
    assert_eq!(pool.used_bytes(), 2048);
    assert_eq!(pool.max_bytes(), 2048);

    // Insert a large entry that requires evicting both
    let entry = pool.insert(RegionId(3), 2048, 0, &mut rt).unwrap();
    assert_eq!(entry.len, 2048);
    assert_eq!(pool.used_bytes(), 2048);

    // Both old entries should be evicted
    assert!(pool.lookup(RegionId(1)).is_none());
    assert!(pool.lookup(RegionId(2)).is_none());
    assert!(pool.lookup(RegionId(3)).is_some());
}

#[test]
fn test_cache_pool_eviction_invalidates_region() {
    // When a cache entry is evicted, the corresponding region's state in the
    // RegionTable should transition to Invalid
    let (mut pool, mut rt) = make_pool_with_region_table(2048);

    // Insert regions into both pool and region table
    rt.insert(make_region_info(RegionId(1), RegionState::Shared(0)));
    rt.insert(make_region_info(RegionId(2), RegionState::Shared(0)));

    pool.insert(RegionId(1), 1024, 0, &mut rt).unwrap();
    pool.insert(RegionId(2), 1024, 0, &mut rt).unwrap();

    // Both should be Shared
    assert_eq!(rt.lookup(RegionId(1)).unwrap().state, RegionState::Shared(0));
    assert_eq!(rt.lookup(RegionId(2)).unwrap().state, RegionState::Shared(0));

    // Insert a third, evicting region 1
    pool.insert(RegionId(3), 1024, 0, &mut rt).unwrap();

    // Region 1 should now be Invalid in the region table
    assert_eq!(rt.lookup(RegionId(1)).unwrap().state, RegionState::Invalid);
    // Region 2 should still be Shared
    assert_eq!(rt.lookup(RegionId(2)).unwrap().state, RegionState::Shared(0));
}

#[test]
fn test_cache_pool_zero_max_bytes() {
    // max_bytes=0 means no caching — all inserts fail immediately
    let mut pool = make_pool(0);
    let mut rt = RegionTable::new();
    let result = pool.insert(RegionId(1), 1024, 0, &mut rt);
    assert!(result.is_err());
    assert!(pool.lookup(RegionId(1)).is_none());
    assert_eq!(pool.used_bytes(), 0);
    assert_eq!(pool.len(), 0);
}
