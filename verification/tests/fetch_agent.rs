use unibus::cache_pool::CachePool;
use unibus::fetch_agent::{FetchAgent, ReadVaResult};
use unibus::region::RegionTable;
use unibus::sub_alloc::SubAllocator;
use unibus::types::{RegionId, RegionInfo, RegionState};

fn make_fetch_agent() -> FetchAgent {
    let cache_pool = CachePool::new(SubAllocator::new(0, 1024 * 1024), 1024 * 1024);
    FetchAgent::new(RegionTable::new(), cache_pool)
}

fn make_region(region_id: u64, state: RegionState) -> RegionInfo {
    make_region_with_epoch(region_id, state, 0)
}

fn make_region_with_epoch(region_id: u64, state: RegionState, epoch: u64) -> RegionInfo {
    RegionInfo {
        region_id: RegionId(region_id),
        home_node_id: 1,
        device_id: 0,
        mr_handle: 1,
        base_offset: 0,
        len: 4096,
        epoch,
        state,
        local_mr_handle: None,
    }
}

#[test]
fn test_fetch_agent_home_read() {
    let mut agent = make_fetch_agent();
    agent.region_table.insert(make_region(1, RegionState::Home));

    let result = agent.read_va(RegionId(1));
    match result {
        ReadVaResult::Home(info) => assert_eq!(info.region_id, RegionId(1)),
        _ => panic!("expected Home result"),
    }
}

#[test]
fn test_fetch_agent_cache_miss() {
    let mut agent = make_fetch_agent();
    agent.region_table.insert(make_region(1, RegionState::Invalid));

    let result = agent.read_va(RegionId(1));
    match result {
        ReadVaResult::CacheMiss(info) => assert_eq!(info.region_id, RegionId(1)),
        _ => panic!("expected CacheMiss result"),
    }
}

#[test]
fn test_fetch_agent_complete_fetch_then_hit() {
    let mut agent = make_fetch_agent();
    agent.region_table.insert(make_region(1, RegionState::Invalid));

    // First read → miss
    let result = agent.read_va(RegionId(1));
    assert!(matches!(result, ReadVaResult::CacheMiss(_)));

    // Complete the fetch
    let offset = agent.complete_fetch(RegionId(1), 4096, 1).unwrap();
    assert!(offset < u64::MAX); // just check it succeeded

    // Second read → hit
    let result = agent.read_va(RegionId(1));
    match result {
        ReadVaResult::CacheHit(off, info) => {
            assert_eq!(off, offset);
            assert_eq!(info.region_id, RegionId(1));
        }
        _ => panic!("expected CacheHit result"),
    }

    // Verify region state is now Shared
    let region = agent.region_table.lookup(RegionId(1)).unwrap();
    assert_eq!(region.state, RegionState::Shared(1));
}

#[test]
fn test_fetch_agent_invalidate_local() {
    let mut agent = make_fetch_agent();
    agent.region_table.insert(make_region(1, RegionState::Shared(1)));
    agent.complete_fetch(RegionId(1), 4096, 1).unwrap();

    // Invalidate
    assert!(agent.invalidate_local(RegionId(1)));

    // Should be a miss now
    let result = agent.read_va(RegionId(1));
    assert!(matches!(result, ReadVaResult::CacheMiss(_)));

    // Region state should be Invalid
    let region = agent.region_table.lookup(RegionId(1)).unwrap();
    assert_eq!(region.state, RegionState::Invalid);
}

#[test]
fn test_fetch_agent_unknown_region() {
    let mut agent = make_fetch_agent();
    let result = agent.read_va(RegionId(999));
    assert!(matches!(result, ReadVaResult::UnknownRegion));
}

#[test]
fn test_fetch_agent_in_flight_tracking() {
    let mut agent = make_fetch_agent();
    assert!(!agent.is_fetch_in_flight(RegionId(1)));

    agent.mark_fetch_in_flight(RegionId(1));
    assert!(agent.is_fetch_in_flight(RegionId(1)));

    // Mark again (idempotent)
    agent.mark_fetch_in_flight(RegionId(1));
    assert!(agent.is_fetch_in_flight(RegionId(1)));

    // Complete fetch clears in-flight
    agent.region_table.insert(make_region(1, RegionState::Invalid));
    agent.complete_fetch(RegionId(1), 4096, 1).unwrap();
    assert!(!agent.is_fetch_in_flight(RegionId(1)));
}

#[test]
fn test_fetch_agent_epoch_stale_auto_invalidate() {
    let mut agent = make_fetch_agent();
    agent.region_table.insert(make_region(1, RegionState::Shared(1)));
    agent.complete_fetch(RegionId(1), 4096, 1).unwrap();

    // Simulate epoch bump (e.g. another node wrote → invalidate received)
    // Manually bump the region table epoch past the cache entry epoch
    agent.region_table.set_epoch(RegionId(1), 5);
    agent.region_table.set_state(RegionId(1), RegionState::Shared(5));

    // read_va should detect stale cache, auto-invalidate, return CacheMiss
    let result = agent.read_va(RegionId(1));
    match result {
        ReadVaResult::CacheMiss(info) => {
            assert_eq!(info.region_id, RegionId(1));
        }
        _ => panic!("expected CacheMiss due to stale epoch, got {:?}", result),
    }

    // Region should now be Invalid
    let region = agent.region_table.lookup(RegionId(1)).unwrap();
    assert_eq!(region.state, RegionState::Invalid);
}

#[test]
fn test_fetch_agent_receive_invalidate() {
    let mut agent = make_fetch_agent();
    agent.region_table.insert(make_region(1, RegionState::Shared(1)));
    agent.complete_fetch(RegionId(1), 4096, 1).unwrap();

    // Receive invalidate with newer epoch
    let result = agent.receive_invalidate(RegionId(1), 3);
    assert!(result);

    // Region should be Invalid now
    let region = agent.region_table.lookup(RegionId(1)).unwrap();
    assert_eq!(region.state, RegionState::Invalid);
    // Epoch should be updated to the new value
    assert_eq!(region.epoch, 3);
}

#[test]
fn test_fetch_agent_receive_invalidate_stale() {
    let mut agent = make_fetch_agent();
    agent.region_table.insert(make_region(1, RegionState::Shared(5)));
    agent.complete_fetch(RegionId(1), 4096, 5).unwrap();

    // Receive invalidate with OLDER epoch — should be ignored
    let result = agent.receive_invalidate(RegionId(1), 2);
    assert!(!result);

    // Region should still be Shared(5)
    let region = agent.region_table.lookup(RegionId(1)).unwrap();
    assert_eq!(region.state, RegionState::Shared(5));
}

#[test]
fn test_fetch_agent_receive_invalidate_home_region() {
    let mut agent = make_fetch_agent();
    agent.region_table.insert(make_region(1, RegionState::Home));

    // Home region should not accept INVALIDATE
    let result = agent.receive_invalidate(RegionId(1), 10);
    assert!(!result);

    // Region should still be Home
    let region = agent.region_table.lookup(RegionId(1)).unwrap();
    assert_eq!(region.state, RegionState::Home);
}

#[test]
fn test_fetch_agent_receive_invalidate_unknown_region() {
    let mut agent = make_fetch_agent();

    let result = agent.receive_invalidate(RegionId(999), 1);
    assert!(!result);
}

#[test]
fn test_fetch_agent_receive_invalidate_same_epoch() {
    // An INVALIDATE with the same epoch as the cached copy must still
    // invalidate the cache — the home node sent it, so the data is stale.
    let mut agent = make_fetch_agent();
    agent.region_table.insert(make_region(1, RegionState::Shared(1)));
    agent.complete_fetch(RegionId(1), 4096, 1).unwrap();

    // Receive invalidate with same epoch
    let result = agent.receive_invalidate(RegionId(1), 1);
    assert!(result);

    // Region should be Invalid now
    let region = agent.region_table.lookup(RegionId(1)).unwrap();
    assert_eq!(region.state, RegionState::Invalid);
}

#[test]
fn test_fetch_agent_receive_invalidate_already_invalid() {
    let mut agent = make_fetch_agent();
    agent.region_table.insert(make_region_with_epoch(1, RegionState::Invalid, 2));

    // Invalid region receiving invalidate with newer epoch — should update epoch
    let result = agent.receive_invalidate(RegionId(1), 5);
    assert!(!result); // returns false since it wasn't Shared

    // But epoch should still be updated
    let region = agent.region_table.lookup(RegionId(1)).unwrap();
    assert_eq!(region.epoch, 5);
    assert_eq!(region.state, RegionState::Invalid);
}

#[test]
fn test_fetch_agent_is_epoch_stale() {
    let mut agent = make_fetch_agent();
    agent.region_table.insert(make_region_with_epoch(1, RegionState::Shared(3), 3));

    assert!(agent.is_epoch_stale(RegionId(1), 5));  // stale
    assert!(!agent.is_epoch_stale(RegionId(1), 3)); // current
    assert!(!agent.is_epoch_stale(RegionId(1), 1)); // older (not stale)
    assert!(!agent.is_epoch_stale(RegionId(999), 1)); // unknown
}

#[test]
fn test_fetch_agent_complete_fetch_updates_epoch() {
    let mut agent = make_fetch_agent();
    agent.region_table.insert(make_region_with_epoch(1, RegionState::Invalid, 0));

    // Complete fetch with epoch 5
    let offset = agent.complete_fetch(RegionId(1), 4096, 5).unwrap();

    // Region should be Shared(5)
    let region = agent.region_table.lookup(RegionId(1)).unwrap();
    assert_eq!(region.state, RegionState::Shared(5));
    assert_eq!(region.epoch, 5);

    // Cache entry should also have epoch 5
    let entry = agent.cache_pool.lookup(RegionId(1)).unwrap();
    assert_eq!(entry.epoch, 5);
    assert_eq!(entry.pool_offset, offset);
}

#[test]
fn test_fetch_agent_cache_miss_then_fetch_then_hit_then_invalidate_then_miss() {
    // Full lifecycle test
    let mut agent = make_fetch_agent();
    agent.region_table.insert(make_region(1, RegionState::Invalid));

    // 1. Miss
    assert!(matches!(agent.read_va(RegionId(1)), ReadVaResult::CacheMiss(_)));

    // 2. Fetch complete
    agent.complete_fetch(RegionId(1), 4096, 1).unwrap();

    // 3. Hit
    assert!(matches!(agent.read_va(RegionId(1)), ReadVaResult::CacheHit(_, _)));

    // 4. Invalidate (simulating remote write)
    agent.receive_invalidate(RegionId(1), 2);

    // 5. Miss again
    assert!(matches!(agent.read_va(RegionId(1)), ReadVaResult::CacheMiss(_)));

    // 6. Re-fetch with new epoch
    agent.complete_fetch(RegionId(1), 4096, 2).unwrap();

    // 7. Hit with new epoch
    match agent.read_va(RegionId(1)) {
        ReadVaResult::CacheHit(_, info) => assert_eq!(info.epoch, 2),
        _ => panic!("expected CacheHit"),
    }
}
