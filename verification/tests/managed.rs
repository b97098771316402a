use unibus::cache_pool::CachePool;
use unibus::coherence::{AcquireWriterResult, CoherenceManager, RegionHomeState};
use unibus::fetch_agent::{FetchAgent, ReadVaResult};
use unibus::placer::Placer;
use unibus::region::RegionTable;
use unibus::registry::DeviceRegistry;
use unibus::sub_alloc::SubAllocator;
use unibus::types::{
    AllocHints, DeviceKind, DeviceProfile, RegionId, RegionInfo, RegionState, UbVa,
};

fn region(id: u64, state: RegionState, epoch: u64) -> RegionInfo {
    RegionInfo {
        region_id: RegionId(id),
        home_node_id: 1,
        device_id: 0,
        mr_handle: 1,
        base_offset: 0,
        len: 4096,
        epoch,
        state,
        local_mr_handle: None,
    }
}

#[test]
fn allocations_of_a_pool_lie_apart() {
    let mut pool = SubAllocator::new(100, 50);
    assert_eq!(pool.allocate(20), Some(100));
    assert_eq!(pool.allocate(31), None);
    assert_eq!(pool.allocate(30), Some(120));
    assert_eq!((pool.base_offset(), pool.total_len()), (100, 50));
    assert_eq!((pool.allocated_bytes(), pool.free_bytes()), (50, 0));
    assert_eq!(pool.allocate(u64::MAX), None);
    assert_eq!(pool.allocate(0), Some(150));
}

#[test]
fn a_cache_pool_refuses_what_can_never_fit() {
    let mut regions = RegionTable::new();
    let mut pool = CachePool::new(SubAllocator::new(0, 4096), 1024);
    assert_eq!(
        pool.insert(RegionId(1), 1025, 0, &mut regions).unwrap_err(),
        "cache pool full, cannot evict enough space"
    );
    // What the allocator cannot give is refused too
    let mut pool = CachePool::new(SubAllocator::new(0, 100), 1024);
    pool.insert(RegionId(1), 80, 0, &mut regions).unwrap();
    assert_eq!(
        pool.insert(RegionId(2), 80, 0, &mut regions).unwrap_err(),
        "sub-allocator exhausted"
    );
    assert!(pool.contains(RegionId(1)));
    assert_eq!((pool.used_bytes(), pool.len()), (80, 1));
}

#[test]
fn the_least_recently_used_entry_goes_first() {
    let mut regions = RegionTable::new();
    let mut pool = CachePool::new(SubAllocator::new(0, 4096), 4096);
    for id in 1..=3 {
        pool.insert(RegionId(id), 10, 0, &mut regions).unwrap();
    }
    pool.lookup(RegionId(1));
    assert!(pool.evict_lru(&mut regions));
    assert!(!pool.contains(RegionId(2)));
    assert!(pool.evict_lru(&mut regions));
    assert!(!pool.contains(RegionId(3)));
    assert!(pool.evict_lru(&mut regions));
    assert!(!pool.evict_lru(&mut regions));
    assert_eq!(pool.used_bytes(), 0);
}

#[test]
fn a_fetched_region_is_hit_until_it_is_noticed_to_be_stale() {
    let pool = CachePool::new(SubAllocator::new(0, 1 << 20), 1 << 20);
    let mut agent = FetchAgent::new(RegionTable::new(), pool);
    agent.region_table.insert(region(1, RegionState::Invalid, 0));
    agent.complete_fetch(RegionId(1), 64, 4).unwrap();
    match agent.read_va(RegionId(1)) {
        ReadVaResult::CacheHit(offset, info) => {
            assert_eq!((offset, info.epoch), (0, 4));
        }
        _ => panic!("expected a hit"),
    }
    assert!(agent.receive_invalidate(RegionId(1), 5));
    assert!(matches!(agent.read_va(RegionId(1)), ReadVaResult::CacheMiss(_)));
    assert!(agent.cache_pool().len() == 0);
    assert!(!agent.invalidate_local(RegionId(9)));
    assert!(agent.complete_fetch(RegionId(1), 2 << 20, 6).is_err());
}

#[test]
fn there_is_one_writer_at_a_time() {
    let mut cm = CoherenceManager::new(100);
    cm.register_region(RegionId(1), 1, 0, 64);
    assert!(matches!(cm.acquire_writer(RegionId(1), 5, 0), AcquireWriterResult::Granted { .. }));
    match cm.acquire_writer(RegionId(1), 6, 50) {
        AcquireWriterResult::Denied { reason, .. } => {
            assert_eq!(reason, "writer node 5 holds the lock");
        }
        _ => panic!("expected a refusal"),
    }
    // The lease of a renewed lock starts anew
    cm.acquire_writer(RegionId(1), 5, 90);
    assert_eq!(cm.get_writer(RegionId(1)).unwrap().lease_deadline, 190);
    assert!(cm.check_lease_expiry(190).is_empty());
    assert_eq!(cm.check_lease_expiry(191), vec![(RegionId(1), 5)]);
    assert!(cm.get_writer(RegionId(1)).is_none());
    assert_eq!(cm.get_epoch(RegionId(1)), Some(1));
    assert_eq!(cm.writer_lease_ms(), 100);
}

#[test]
fn epochs_rise_with_every_release() {
    let mut cm = CoherenceManager::new(100);
    cm.register_region(RegionId(1), 1, 0, 64);
    for want in 1..=3 {
        cm.acquire_writer(RegionId(1), 5, 0);
        assert!(cm.release_writer(RegionId(1), 5));
        assert_eq!(cm.get_epoch(RegionId(1)), Some(want));
    }
    assert!(!cm.release_writer(RegionId(1), 5));
    assert!(!cm.release_writer(RegionId(2), 5));
    assert_eq!(cm.bump_epoch(RegionId(2)), None);
    assert_eq!(cm.get_epoch(RegionId(2)), None);
}

#[test]
fn acknowledged_readers_are_forgotten_once() {
    let mut cm = CoherenceManager::new(100);
    cm.register_region(RegionId(1), 7, 8, 64);
    assert!(cm.add_reader(RegionId(1), 2));
    assert!(cm.add_reader(RegionId(1), 2));
    assert_eq!(cm.get_readers(RegionId(1)).len(), 1);
    assert!(cm.handle_invalidate_ack(RegionId(1), 2));
    assert!(!cm.handle_invalidate_ack(RegionId(1), 2));
    assert!(!cm.handle_invalidate_ack(RegionId(9), 2));
    assert!(!cm.add_reader(RegionId(9), 2));
    assert!(cm.get_readers(RegionId(9)).is_empty());
    let home = cm.get_home_state(RegionId(1)).unwrap();
    assert_eq!((home.current_epoch(), home.reader_count()), (0, 0));
    assert!(cm.get_home_state(RegionId(9)).is_none());
    let listed = cm.list_regions();
    assert_eq!(listed.len(), 1);
    assert_eq!((listed[0].0, listed[0].1, listed[0].2), (RegionId(1), 0, None));
}

#[test]
fn home_state_counts_readers_and_epochs() {
    let mut home = RegionHomeState::new(1, 0, 64, 10);
    home.add_reader(3);
    home.add_reader(3);
    home.add_reader(4);
    assert_eq!(home.reader_count(), 2);
    assert!(home.reader_nodes().contains(&4));
    assert!(home.remove_reader(3));
    assert!(!home.remove_reader(3));
    assert_eq!(home.bump_epoch(), 11);
    assert!(!home.is_writer_lease_expired(u64::MAX));
}

#[test]
fn the_cheapest_suitable_device_wins_and_the_first_of_equals() {
    let mut registry = DeviceRegistry::new();
    registry.register_all(vec![
        DeviceProfile::memory_default(1, 100),
        DeviceProfile::memory_default(2, 1000),
        DeviceProfile::npu_default(3, 1, 1000),
        DeviceProfile::memory_default(4, 1000),
    ]);
    let scores = vec![1, 5, 3, 5];
    assert_eq!(registry.best_device(&scores, None, 50), Some((1, 0)));
    assert_eq!(registry.best_device(&scores, None, 500), Some((3, 1)));
    assert_eq!(registry.best_device(&scores, Some(DeviceKind::Memory), 500), Some((2, 0)));
    assert_eq!(registry.best_device(&scores, None, 5000), None);
    registry.remove_node(3);
    assert!(registry.get(3, 1).is_none());
}

#[test]
fn placements_on_one_device_lie_apart() {
    let mut placer = Placer::new(DeviceRegistry::new());
    placer.register_device(DeviceProfile::memory_default(1, 10_000));
    placer.register_sub_allocator(1, 0, SubAllocator::new(500, 200));
    let hints = AllocHints { size: 100, ..AllocHints::default() };
    let scores = vec![0];
    let (va, a) = placer.place(&hints, 9, &scores).unwrap();
    let (_, b) = placer.place(&hints, 9, &scores).unwrap();
    assert_eq!((a.base_offset, b.base_offset), (500, 600));
    assert_eq!(va, UbVa::new(a.region_id, 0));
    assert_ne!(a.region_id, b.region_id);
    assert_eq!(
        placer.place(&hints, 9, &scores).unwrap_err(),
        "insufficient space in device pool"
    );
    let small = AllocHints { size: 0, ..AllocHints::default() };
    let (va, c) = placer.place_with_id(RegionId(77), &small, 9, 5, &scores).unwrap();
    assert_eq!((va.region_id(), c.mr_handle), (RegionId(77), 5));
    assert_eq!(placer.list().len(), 3);
    placer.register_device(DeviceProfile::npu_default(2, 1, 10_000));
    let pinned = AllocHints { pin: Some(DeviceKind::Npu), ..hints };
    assert_eq!(
        placer.place(&pinned, 9, &vec![0, 0]).unwrap_err(),
        "no sub-allocator for device (2, 1)"
    );
    placer.remove_node(1);
    placer.remove_node(2);
    assert_eq!(
        placer.place(&small, 9, &vec![]).unwrap_err(),
        "no suitable device found for placement"
    );
    assert!(placer.free(RegionId(1234)).is_none());
}

#[test]
fn a_pool_may_end_beyond_the_largest_offset() {
    let mut pool = SubAllocator::new(u64::MAX - 10, 100);
    assert_eq!(pool.allocate(10), Some(u64::MAX - 10));
    assert_eq!(pool.allocate(5), Some(u64::MAX));
    assert_eq!(pool.allocate(5), None);
    assert_eq!((pool.allocated_bytes(), pool.free_bytes()), (15, 85));
    pool.free(u64::MAX, 5);
    assert_eq!(pool.allocated_bytes() + pool.free_bytes(), pool.total_len());
}
