use unibus::cache_pool::CachePool;
use unibus::coherence::{AcquireWriterResult, CoherenceManager, WriterGuard};
use unibus::fetch_agent::{FetchAgent, ReadVaResult};
use unibus::region::RegionTable;
use unibus::sub_alloc::SubAllocator;
use unibus::types::{RegionId, RegionInfo, RegionState, UbVa};

fn make_coherence() -> CoherenceManager {
    CoherenceManager::new(5000) // 5s lease
}

#[test]
fn test_coherence_acquire_writer_no_readers() {
    let mut cm = make_coherence();
    cm.register_region(RegionId(1), 1, 0, 4096);

    let result = cm.acquire_writer(RegionId(1), 1, 0);
    match result {
        AcquireWriterResult::Granted { region_id, epoch } => {
            assert_eq!(region_id, RegionId(1));
            assert_eq!(epoch, 0);
        }
        _ => panic!("expected Granted, got {:?}", result),
    }

    // Verify writer is set
    let writer = cm.get_writer(RegionId(1)).unwrap();
    assert_eq!(writer.writer_node_id, 1);
}

#[test]
fn test_coherence_acquire_writer_with_readers() {
    let mut cm = make_coherence();
    cm.register_region(RegionId(1), 1, 0, 4096);

    // Add readers
    cm.add_reader(RegionId(1), 2);
    cm.add_reader(RegionId(1), 3);

    // Acquire writer — should still grant (toy impl grants immediately)
    let result = cm.acquire_writer(RegionId(1), 1, 0);
    match result {
        AcquireWriterResult::Granted { region_id, .. } => {
            assert_eq!(region_id, RegionId(1));
        }
        _ => panic!("expected Granted, got {:?}", result),
    }

    // Verify readers are still tracked (until they ACK INVALIDATE)
    let readers = cm.get_readers(RegionId(1));
    assert!(readers.contains(&2));
    assert!(readers.contains(&3));
}

#[test]
fn test_coherence_invalidate_state_transition() {
    let mut cm = make_coherence();
    cm.register_region(RegionId(1), 1, 0, 4096);

    // Add reader
    cm.add_reader(RegionId(1), 2);

    // Reader ACKs the INVALIDATE — removed from readers set
    let acked = cm.handle_invalidate_ack(RegionId(1), 2);
    assert!(acked);

    // Reader should no longer be in the set
    let readers = cm.get_readers(RegionId(1));
    assert!(!readers.contains(&2));
}

#[test]
fn test_coherence_writer_lease_expiry() {
    let mut cm = CoherenceManager::new(1); // 1ms lease
    cm.register_region(RegionId(1), 1, 0, 4096);

    // Acquire writer
    let result = cm.acquire_writer(RegionId(1), 1, 0);
    assert!(matches!(result, AcquireWriterResult::Granted { .. }));

    // Check lease expiry once the lease has run out
    let expired = cm.check_lease_expiry(10);
    assert_eq!(expired.len(), 1);
    assert_eq!(expired[0].0, RegionId(1));
    assert_eq!(expired[0].1, 1);

    // Writer should be cleared now
    assert!(cm.get_writer(RegionId(1)).is_none());

    // Epoch should be bumped
    let epoch = cm.get_epoch(RegionId(1)).unwrap();
    assert!(epoch > 0);
}

#[test]
fn test_concurrent_acquire_queues() {
    let mut cm = make_coherence();
    cm.register_region(RegionId(1), 1, 0, 4096);

    // First writer acquires
    let result1 = cm.acquire_writer(RegionId(1), 1, 0);
    assert!(matches!(result1, AcquireWriterResult::Granted { .. }));

    // Second writer is denied (first still holds lock)
    let result2 = cm.acquire_writer(RegionId(1), 2, 0);
    match result2 {
        AcquireWriterResult::Denied { region_id, reason } => {
            assert_eq!(region_id, RegionId(1));
            assert!(reason.contains("writer node 1"));
        }
        _ => panic!("expected Denied, got {:?}", result2),
    }

    // First writer releases
    let released = cm.release_writer(RegionId(1), 1);
    assert!(released);

    // Now second writer can acquire
    let result3 = cm.acquire_writer(RegionId(1), 2, 0);
    assert!(matches!(result3, AcquireWriterResult::Granted { .. }));
}

#[test]
fn test_coherence_region_not_found() {
    let mut cm = make_coherence();

    let result = cm.acquire_writer(RegionId(999), 1, 0);
    assert!(matches!(result, AcquireWriterResult::NotFound));
}

#[test]
fn test_coherence_release_wrong_writer() {
    let mut cm = make_coherence();
    cm.register_region(RegionId(1), 1, 0, 4096);

    // Writer 1 acquires
    let result = cm.acquire_writer(RegionId(1), 1, 0);
    assert!(matches!(result, AcquireWriterResult::Granted { .. }));

    // Writer 2 tries to release — should fail
    let released = cm.release_writer(RegionId(1), 2);
    assert!(!released);

    // Writer 1 should still hold the lock
    let writer = cm.get_writer(RegionId(1)).unwrap();
    assert_eq!(writer.writer_node_id, 1);
}

#[test]
fn test_writer_guard_manual_release() {
    let mut cm = make_coherence();
    cm.register_region(RegionId(1), 1, 0, 4096);

    let result = cm.acquire_writer(RegionId(1), 1, 0);
    let granted = match result {
        AcquireWriterResult::Granted { epoch, .. } => epoch,
        _ => panic!("expected Granted"),
    };

    let mut guard = WriterGuard::new(
        UbVa::new(RegionId(1), 0),
        RegionId(1),
        1,
        1,
        granted,
    );

    assert!(!guard.is_released());
    assert!(cm.get_writer(RegionId(1)).is_some());

    // Manual release
    let ok = guard.release(&mut cm);
    assert!(ok);
    assert!(guard.is_released());

    // Writer should be cleared
    assert!(cm.get_writer(RegionId(1)).is_none());

    // Double release should be a no-op
    let ok2 = guard.release(&mut cm);
    assert!(!ok2);
}

#[test]
fn test_coherence_add_remove_reader() {
    let mut cm = make_coherence();
    cm.register_region(RegionId(1), 1, 0, 4096);

    assert!(cm.add_reader(RegionId(1), 2));
    assert!(cm.add_reader(RegionId(1), 3));

    let readers = cm.get_readers(RegionId(1));
    assert_eq!(readers.len(), 2);
    assert!(readers.contains(&2));
    assert!(readers.contains(&3));

    assert!(cm.remove_reader(RegionId(1), 2));
    let readers = cm.get_readers(RegionId(1));
    assert_eq!(readers.len(), 1);
    assert!(!readers.contains(&2));

    // Remove non-existent reader
    assert!(!cm.remove_reader(RegionId(1), 99));
}

#[test]
fn test_coherence_epoch_bumping() {
    let mut cm = make_coherence();
    cm.register_region(RegionId(1), 1, 0, 4096);

    assert_eq!(cm.get_epoch(RegionId(1)), Some(0));

    let e1 = cm.bump_epoch(RegionId(1));
    assert_eq!(e1, Some(1));
    assert_eq!(cm.get_epoch(RegionId(1)), Some(1));

    let e2 = cm.bump_epoch(RegionId(1));
    assert_eq!(e2, Some(2));
    assert_eq!(cm.get_epoch(RegionId(1)), Some(2));
}

#[test]
fn test_coherence_unregister_region() {
    let mut cm = make_coherence();
    cm.register_region(RegionId(1), 1, 0, 4096);
    assert!(cm.contains_region(RegionId(1)));

    let state = cm.unregister_region(RegionId(1));
    assert!(state.is_some());
    assert!(!cm.contains_region(RegionId(1)));

    // Unregistering again should return None
    let state2 = cm.unregister_region(RegionId(1));
    assert!(state2.is_none());
}

#[test]
fn test_coherence_same_writer_reacquire() {
    let mut cm = make_coherence();
    cm.register_region(RegionId(1), 1, 0, 4096);

    // First acquire
    let result1 = cm.acquire_writer(RegionId(1), 1, 0);
    assert!(matches!(result1, AcquireWriterResult::Granted { .. }));

    // Same writer re-acquires (refreshes lease)
    let result2 = cm.acquire_writer(RegionId(1), 1, 0);
    assert!(matches!(result2, AcquireWriterResult::Granted { .. }));

    // Release
    assert!(cm.release_writer(RegionId(1), 1));
    assert!(cm.get_writer(RegionId(1)).is_none());
}

#[test]
fn test_swmr_full_lifecycle() {
    // Full SWMR lifecycle: alloc → FETCH → read → acquire_writer →
    // invalidate readers → write → release → re-FETCH → read new data
    let mut cm = make_coherence();
    let cache_pool = CachePool::new(SubAllocator::new(0, 1024 * 1024), 1024 * 1024);
    let mut fetch_agent = FetchAgent::new(RegionTable::new(), cache_pool);

    let region_id = RegionId(1);

    // 1. Home node registers the region
    cm.register_region(region_id, 1, 0, 4096);

    // 2. Remote node (node 2) FETCHes the region → becomes a reader
    cm.add_reader(region_id, 2);
    fetch_agent.region_table.insert(RegionInfo {
        region_id,
        home_node_id: 1,
        device_id: 0,
        mr_handle: 1,
        base_offset: 0,
        len: 4096,
        epoch: 0,
        state: RegionState::Shared(0),
        local_mr_handle: Some(2),
    });
    fetch_agent.complete_fetch(region_id, 4096, 0).unwrap();

    // 3. Verify node 2 can read from cache
    let read_result = fetch_agent.read_va(region_id);
    assert!(matches!(read_result, ReadVaResult::CacheHit(_, _)));

    // 4. Node 1 acquires writer lock
    let result = cm.acquire_writer(region_id, 1, 0);
    assert!(matches!(result, AcquireWriterResult::Granted { .. }));

    // 5. Home node sends INVALIDATE to reader (node 2)
    // Node 2 processes the INVALIDATE via FetchAgent
    let invalidated = fetch_agent.receive_invalidate(region_id, 1);
    assert!(invalidated);

    // 6. Node 2 ACKs the INVALIDATE — removed from readers set
    let acked = cm.handle_invalidate_ack(region_id, 2);
    assert!(acked);
    assert!(!cm.get_readers(region_id).contains(&2));

    // 7. Node 2's region is now Invalid
    let region = fetch_agent.region_table.lookup(region_id).unwrap();
    assert_eq!(region.state, RegionState::Invalid);

    // 8. Node 1 does the write, then releases
    cm.release_writer(region_id, 1);
    // Epoch bumped on release
    let epoch = cm.get_epoch(region_id).unwrap();
    assert!(epoch > 0);

    // 9. Node 2 re-FETCHes the region
    // First, the region state needs to be updated with the new epoch info
    fetch_agent.region_table.set_epoch(region_id, epoch);
    let read_result2 = fetch_agent.read_va(region_id);
    assert!(matches!(read_result2, ReadVaResult::CacheMiss(_)));

    // 10. Node 2 completes the re-FETCH
    fetch_agent.complete_fetch(region_id, 4096, epoch).unwrap();
    let region = fetch_agent.region_table.lookup(region_id).unwrap();
    assert_eq!(region.state, RegionState::Shared(epoch));

    // 11. Node 2 can now read the updated data
    let read_result3 = fetch_agent.read_va(region_id);
    assert!(matches!(read_result3, ReadVaResult::CacheHit(_, _)));
}
