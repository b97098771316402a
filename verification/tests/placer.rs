use unibus::placer::{Placer, RegionPlacement};
use unibus::registry::DeviceRegistry;
use unibus::sub_alloc::SubAllocator;
use unibus::types::{
    AllocHints, DeviceKind, DeviceProfile, LatencyClass, RegionId, StorageTier, UbVa,
};

/// The cost of each registered device for a request, mapped to integers in the same order.
fn scores(registry: &DeviceRegistry, requester_node: u16, class: LatencyClass) -> Vec<u64> {
    registry
        .list()
        .iter()
        .map(|p| {
            let latency = if p.device_key.0 == requester_node {
                0.0
            } else {
                (p.read_latency_ns_p50 as f64 + 5000.0) / 1000.0
            };
            let used = 1.0 - p.free_bytes() as f64 / p.capacity_bytes as f64;
            let load = p.recent_rps as f64 / (p.peak_read_bw_mbps as f64).max(1.0);
            let cost = latency + 0.3 * used + 0.5 * tier_mismatch(class, p.tier) + 0.2 * load;
            cost.to_bits()
        })
        .collect()
}

fn tier_mismatch(class: LatencyClass, tier: StorageTier) -> f64 {
    match (class, tier) {
        (LatencyClass::Critical, StorageTier::Hot) => 0.0,
        (LatencyClass::Normal, StorageTier::Warm) => 0.0,
        (LatencyClass::Bulk, StorageTier::Cold) => 0.0,
        (LatencyClass::Critical, StorageTier::Warm) => 0.3,
        (LatencyClass::Normal, StorageTier::Hot) => 0.1,
        (LatencyClass::Normal, StorageTier::Cold) => 0.3,
        (LatencyClass::Bulk, StorageTier::Warm) => 0.1,
        (LatencyClass::Critical, StorageTier::Cold) => 1.0,
        (LatencyClass::Bulk, StorageTier::Hot) => 0.5,
    }
}

fn place(
    placer: &mut Placer,
    hints: &AllocHints,
    requester_node: u16,
) -> Result<(UbVa, RegionPlacement), String> {
    let scores = scores(placer.registry(), requester_node, hints.latency_class);
    placer.place(hints, requester_node, &scores)
}

fn setup_placer() -> Placer {
    let mut registry = DeviceRegistry::new();
    // Register two devices: memory on node 1, NPU on node 1
    registry.register(DeviceProfile::memory_default(1, 1024 * 1024 * 256));
    registry.register(DeviceProfile::npu_default(1, 1, 1024 * 1024 * 256));

    let mut placer = Placer::new(registry);

    // Register sub-allocators
    placer.register_sub_allocator(1, 0, SubAllocator::new(0, 1024 * 1024 * 256));
    placer.register_sub_allocator(1, 1, SubAllocator::new(0, 1024 * 1024 * 256));

    placer
}

#[test]
fn test_placement_cost_function() {
    let mut registry = DeviceRegistry::new();
    // Two devices on the SAME node: Warm (memory) and Hot (NPU)
    registry.register(DeviceProfile::memory_default(1, 1024 * 1024 * 256));
    registry.register(DeviceProfile::npu_default(1, 1, 1024 * 1024 * 256));

    let mut placer = Placer::new(registry);
    placer.register_sub_allocator(1, 0, SubAllocator::new(0, 1024 * 1024 * 256));
    placer.register_sub_allocator(1, 1, SubAllocator::new(0, 1024 * 1024 * 256));

    // Critical latency from node 1 should prefer Hot tier (NPU) — same node so latency=0 for both
    let hints = AllocHints {
        latency_class: LatencyClass::Critical,
        ..Default::default()
    };
    let (_, placement) = place(&mut placer, &hints, 1).unwrap();
    assert_eq!(placement.device_id, 1); // NPU device (Hot tier)
    assert_eq!(placement.home_node_id, 1);

    // Normal latency from node 1 should prefer Warm tier (memory) — same node so latency=0 for both
    let hints = AllocHints {
        latency_class: LatencyClass::Normal,
        ..Default::default()
    };
    let (_, placement) = place(&mut placer, &hints, 1).unwrap();
    assert_eq!(placement.device_id, 0); // Memory device (Warm tier)
    assert_eq!(placement.home_node_id, 1);
}

#[test]
fn test_placement_prefers_local_device() {
    let mut registry = DeviceRegistry::new();
    // Same tier on two nodes
    registry.register(DeviceProfile::memory_default(1, 1024 * 1024 * 256));
    registry.register(DeviceProfile::memory_default(2, 1024 * 1024 * 256));

    let mut placer = Placer::new(registry);
    placer.register_sub_allocator(1, 0, SubAllocator::new(0, 1024 * 1024 * 256));
    placer.register_sub_allocator(2, 0, SubAllocator::new(0, 1024 * 1024 * 256));

    let hints = AllocHints {
        latency_class: LatencyClass::Normal,
        ..Default::default()
    };

    // Request from node 1 → prefer node 1
    let (_, placement) = place(&mut placer, &hints, 1).unwrap();
    assert_eq!(placement.home_node_id, 1);
}

#[test]
fn test_placement_respects_pin_hint() {
    let mut placer = setup_placer();

    let hints = AllocHints {
        pin: Some(DeviceKind::Npu),
        latency_class: LatencyClass::Normal,
        ..Default::default()
    };

    let (_, placement) = place(&mut placer, &hints, 1).unwrap();
    assert_eq!(placement.device_id, 1); // NPU device
}

#[test]
fn test_placement_and_free() {
    let mut placer = setup_placer();

    let hints = AllocHints {
        size: 4096,
        latency_class: LatencyClass::Normal,
        ..Default::default()
    };

    let (va, _placement) = place(&mut placer, &hints, 1).unwrap();
    let region_id = va.region_id();

    // Verify placement exists
    let found = placer.lookup(region_id).unwrap();
    assert_eq!(found.region_id, region_id);

    // Free the region
    let freed = placer.free(region_id).unwrap();
    assert_eq!(freed.region_id, region_id);

    // Verify it's gone
    assert!(placer.lookup(region_id).is_none());
}

#[test]
fn test_placement_insufficient_space() {
    let mut registry = DeviceRegistry::new();
    registry.register(DeviceProfile::memory_default(1, 1024)); // tiny device

    let mut placer = Placer::new(registry);
    placer.register_sub_allocator(1, 0, SubAllocator::new(0, 1024));

    let hints = AllocHints {
        size: 2048, // larger than device
        ..Default::default()
    };

    // best_device will return None because free_bytes < size
    let result = place(&mut placer, &hints, 1);
    assert!(result.is_err());
}

#[test]
fn test_placement_no_sub_allocator() {
    let mut registry = DeviceRegistry::new();
    registry.register(DeviceProfile::memory_default(1, 1024 * 1024 * 256));

    // Placer without sub-allocator registered
    let mut placer = Placer::new(registry);

    let hints = AllocHints::default();
    let result = place(&mut placer, &hints, 1);
    assert!(result.is_err());
}

#[test]
fn test_placement_set_mr_handle() {
    let mut placer = setup_placer();

    let hints = AllocHints {
        size: 4096,
        ..Default::default()
    };
    let (va, _) = place(&mut placer, &hints, 1).unwrap();
    let region_id = va.region_id();

    assert!(placer.set_mr_handle(region_id, 42));
    let found = placer.lookup(region_id).unwrap();
    assert_eq!(found.mr_handle, 42);

    assert!(!placer.set_mr_handle(RegionId(9999), 1));
}
