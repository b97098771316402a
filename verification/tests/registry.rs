use unibus::registry::DeviceRegistry;
use unibus::types::{DeviceKind, DeviceProfile, LatencyClass, StorageTier};

/// The cost of each registered device for a request, mapped to integers in the same order.
fn scores(registry: &DeviceRegistry, requester_node: u16, class: LatencyClass) -> Vec<u64> {
    registry
        .list()
        .iter()
        .map(|p| {
            let latency = if p.device_key.0 == requester_node {
                0.0
            } else {
                (p.read_latency_ns_p50 as f64 + 5000.0) / 1000.0
            };
            let used = 1.0 - p.free_bytes() as f64 / p.capacity_bytes as f64;
            let load = p.recent_rps as f64 / (p.peak_read_bw_mbps as f64).max(1.0);
            let cost = latency + 0.3 * used + 0.5 * tier_mismatch(class, p.tier) + 0.2 * load;
            cost.to_bits()
        })
        .collect()
}

fn tier_mismatch(class: LatencyClass, tier: StorageTier) -> f64 {
    match (class, tier) {
        (LatencyClass::Critical, StorageTier::Hot) => 0.0,
        (LatencyClass::Normal, StorageTier::Warm) => 0.0,
        (LatencyClass::Bulk, StorageTier::Cold) => 0.0,
        (LatencyClass::Critical, StorageTier::Warm) => 0.3,
        (LatencyClass::Normal, StorageTier::Hot) => 0.1,
        (LatencyClass::Normal, StorageTier::Cold) => 0.3,
        (LatencyClass::Bulk, StorageTier::Warm) => 0.1,
        (LatencyClass::Critical, StorageTier::Cold) => 1.0,
        (LatencyClass::Bulk, StorageTier::Hot) => 0.5,
    }
}

#[test]
fn test_device_registry_register_and_list() {
    let mut registry = DeviceRegistry::new();
    let p1 = DeviceProfile::memory_default(1, 1024);
    let p2 = DeviceProfile::npu_default(1, 1, 2048);
    registry.register(p1);
    registry.register(p2);

    let list = registry.list();
    assert_eq!(list.len(), 2);

    let found = registry.get(1, 0).unwrap();
    assert_eq!(found.kind, DeviceKind::Memory);

    let found_npu = registry.get(1, 1).unwrap();
    assert_eq!(found_npu.kind, DeviceKind::Npu);
}

#[test]
fn test_device_registry_update_dynamic() {
    let mut registry = DeviceRegistry::new();
    registry.register(DeviceProfile::memory_default(1, 1000));
    assert_eq!(registry.get(1, 0).unwrap().used_bytes, 0);

    registry.update_dynamic(1, 0, 500, 100);
    let p = registry.get(1, 0).unwrap();
    assert_eq!(p.used_bytes, 500);
    assert_eq!(p.recent_rps, 100);
}

#[test]
fn test_device_registry_register_replaces_existing() {
    let mut registry = DeviceRegistry::new();
    registry.register(DeviceProfile::memory_default(1, 1000));
    assert_eq!(registry.list().len(), 1);
    assert_eq!(registry.get(1, 0).unwrap().capacity_bytes, 1000);

    // Register again with same key — should replace
    registry.register(DeviceProfile::memory_default(1, 2000));
    assert_eq!(registry.list().len(), 1);
    assert_eq!(registry.get(1, 0).unwrap().capacity_bytes, 2000);
}

#[test]
fn test_device_registry_remove_node() {
    let mut registry = DeviceRegistry::new();
    registry.register(DeviceProfile::memory_default(1, 1000));
    registry.register(DeviceProfile::npu_default(1, 1, 2000));
    registry.register(DeviceProfile::memory_default(2, 3000));
    assert_eq!(registry.list().len(), 3);

    registry.remove_node(1);
    let list = registry.list();
    assert_eq!(list.len(), 1);
    assert_eq!(list[0].device_key.0, 2);
}

#[test]
fn test_device_registry_best_device_selection() {
    let mut registry = DeviceRegistry::new();
    // Two devices on node 1: memory (Warm) and NPU (Hot)
    registry.register(DeviceProfile::memory_default(1, 1024 * 1024 * 256));
    registry.register(DeviceProfile::npu_default(1, 1, 1024 * 1024 * 256));
    // One device on node 2: memory (Warm)
    registry.register(DeviceProfile::memory_default(2, 1024 * 1024 * 256));

    // Critical latency class should prefer Hot tier (NPU)
    let best = registry.best_device(&scores(&registry, 1, LatencyClass::Critical), None, 1024);
    assert!(best.is_some());
    let (node, dev) = best.unwrap();
    assert_eq!(node, 1);
    assert_eq!(dev, 1); // NPU device

    // Normal latency class should prefer Warm tier (Memory) on local node
    let best = registry.best_device(&scores(&registry, 1, LatencyClass::Normal), None, 1024);
    assert!(best.is_some());
    let (node, dev) = best.unwrap();
    assert_eq!(node, 1);
    assert_eq!(dev, 0); // Memory device on local node

    // Pin to NPU — should only return NPU devices
    let best = registry.best_device(&scores(&registry, 2, LatencyClass::Normal), Some(DeviceKind::Npu), 1024);
    assert!(best.is_some());
    let (_node, dev) = best.unwrap();
    assert_eq!(dev, 1); // NPU device (on remote node 1)

    // Insufficient capacity — should return None
    let best = registry.best_device(&scores(&registry, 1, LatencyClass::Normal), None, 1024 * 1024 * 1024);
    assert!(best.is_none());
}

#[test]
fn test_device_registry_best_device_prefers_local() {
    let mut registry = DeviceRegistry::new();
    // Same tier on different nodes
    registry.register(DeviceProfile::memory_default(1, 1024 * 1024 * 256));
    registry.register(DeviceProfile::memory_default(2, 1024 * 1024 * 256));

    // Request from node 1 should prefer node 1 (local)
    let best = registry.best_device(&scores(&registry, 1, LatencyClass::Normal), None, 1024);
    assert_eq!(best.unwrap().0, 1);

    // Request from node 2 should prefer node 2 (local)
    let best = registry.best_device(&scores(&registry, 2, LatencyClass::Normal), None, 1024);
    assert_eq!(best.unwrap().0, 2);
}
