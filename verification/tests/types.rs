use unibus::error::{
    UB_ERR_ADDR_INVALID, UB_ERR_ALIGNMENT, UB_ERR_FLUSHED, UB_ERR_INTERNAL, UB_ERR_LINK_DOWN,
    UB_ERR_NO_RESOURCES, UB_ERR_PAYLOAD_TOO_LARGE, UB_ERR_PERM_DENIED, UB_ERR_TIMEOUT, UB_OK,
};
use unibus::types::{
    AccessPattern, AllocHints, CapacityClass, DeviceKind, DeviceProfile, LatencyClass, MrPerms,
    NodeState, PeerChangeEvent, RegionId, StorageTier, UbVa, Verb,
};

/// The share of a device that is free.
fn free_ratio(p: &DeviceProfile) -> f64 {
    if p.capacity_bytes == 0 {
        0.0
    } else {
        p.free_bytes() as f64 / p.capacity_bytes as f64
    }
}

#[test]
fn test_mr_perms_bits() {
    assert_eq!(MrPerms::read().bits(), 0b001);
    assert_eq!(MrPerms::write().bits(), 0b010);
    assert_eq!(MrPerms::atomic().bits(), 0b100);
    let rw = MrPerms::read() | MrPerms::write();
    assert!(rw.contains(MrPerms::read()));
    assert!(rw.contains(MrPerms::write()));
    assert!(!rw.contains(MrPerms::atomic()));
}

#[test]
fn test_verb_roundtrip() {
    for v in 1u8..=9u8 {
        let verb = Verb::from_u8(v).unwrap();
        assert_eq!(verb.to_u8(), v);
    }
    assert!(Verb::from_u8(0).is_none());
    assert!(Verb::from_u8(10).is_none());
}

#[test]
fn test_device_kind_roundtrip() {
    assert_eq!(DeviceKind::from_u8(0), Some(DeviceKind::Memory));
    assert_eq!(DeviceKind::from_u8(1), Some(DeviceKind::Npu));
    assert_eq!(DeviceKind::from_u8(2), None);
}

#[test]
fn test_error_code_values() {
    assert_eq!(UB_OK, 0);
    assert_eq!(UB_ERR_ADDR_INVALID, 1);
    assert_eq!(UB_ERR_PERM_DENIED, 2);
    assert_eq!(UB_ERR_ALIGNMENT, 3);
    assert_eq!(UB_ERR_LINK_DOWN, 4);
    assert_eq!(UB_ERR_NO_RESOURCES, 5);
    assert_eq!(UB_ERR_TIMEOUT, 6);
    assert_eq!(UB_ERR_PAYLOAD_TOO_LARGE, 7);
    assert_eq!(UB_ERR_FLUSHED, 8);
    assert_eq!(UB_ERR_INTERNAL, 9);
}

#[test]
fn test_node_state_display() {
    assert_eq!(NodeState::Active.name(), "Active");
    assert_eq!(NodeState::Suspect.name(), "Suspect");
}

#[test]
fn test_peer_change_event_equality() {
    let e1 = PeerChangeEvent::Joined { node_id: 2, epoch: 100 };
    let e2 = PeerChangeEvent::Joined { node_id: 2, epoch: 100 };
    let e3 = PeerChangeEvent::Joined { node_id: 2, epoch: 99 };
    assert_eq!(e1, e2);
    assert_ne!(e1, e3);

    let s1 = PeerChangeEvent::Suspect { node_id: 2 };
    let s2 = PeerChangeEvent::Suspect { node_id: 3 };
    assert_ne!(s1, s2);

    let r1 = PeerChangeEvent::Recovered { node_id: 2 };
    assert_ne!(s1, r1);

    let d1 = PeerChangeEvent::Down { node_id: 2, epoch: 100 };
    let d2 = PeerChangeEvent::Down { node_id: 2, epoch: 101 };
    assert_ne!(d1, d2);
}

#[test]
fn test_storage_tier_roundtrip() {
    assert_eq!(StorageTier::from_u8(0), Some(StorageTier::Hot));
    assert_eq!(StorageTier::from_u8(1), Some(StorageTier::Warm));
    assert_eq!(StorageTier::from_u8(2), Some(StorageTier::Cold));
    assert_eq!(StorageTier::from_u8(3), None);
    assert_eq!(StorageTier::Hot.to_u8(), 0);
    assert_eq!(StorageTier::Warm.to_u8(), 1);
    assert_eq!(StorageTier::Cold.to_u8(), 2);
}

#[test]
fn test_device_profile_memory_default() {
    let p = DeviceProfile::memory_default(1, 1024 * 1024 * 256);
    assert_eq!(p.device_key, (1, 0));
    assert_eq!(p.kind, DeviceKind::Memory);
    assert_eq!(p.tier, StorageTier::Warm);
    assert_eq!(p.peak_read_bw_mbps, 10_000);
    assert_eq!(p.read_latency_ns_p50, 200);
    assert_eq!(free_ratio(&p), 1.0);
}

#[test]
fn test_device_profile_npu_default() {
    let p = DeviceProfile::npu_default(1, 1, 1024 * 1024 * 256);
    assert_eq!(p.device_key, (1, 1));
    assert_eq!(p.kind, DeviceKind::Npu);
    assert_eq!(p.tier, StorageTier::Hot);
    assert_eq!(p.peak_read_bw_mbps, 50_000);
    assert_eq!(p.read_latency_ns_p50, 50);
}

#[test]
fn test_device_profile_free_ratio() {
    let mut p = DeviceProfile::memory_default(1, 1000);
    assert_eq!(p.free_bytes(), 1000);
    assert!((free_ratio(&p) - 1.0).abs() < f64::EPSILON);
    p.used_bytes = 300;
    assert_eq!(p.free_bytes(), 700);
    assert!((free_ratio(&p) - 0.7).abs() < f64::EPSILON);
    p.used_bytes = 1000;
    assert_eq!(p.free_bytes(), 0);
    assert!((free_ratio(&p) - 0.0).abs() < f64::EPSILON);
    // Overflow: used > capacity should not panic
    p.used_bytes = 2000;
    assert_eq!(p.free_bytes(), 0);
}

#[test]
fn test_ub_va_encoding() {
    let va = UbVa::new(RegionId(42), 1024);
    assert_eq!(va.region_id(), RegionId(42));
    assert_eq!(va.offset(), 1024);

    // Roundtrip through u128
    let raw = va.0;
    let va2 = UbVa(raw);
    assert_eq!(va2.region_id(), RegionId(42));
    assert_eq!(va2.offset(), 1024);

    // Zero offset
    let va3 = UbVa::new(RegionId(1), 0);
    assert_eq!(va3.region_id(), RegionId(1));
    assert_eq!(va3.offset(), 0);

    // Max values
    let va4 = UbVa::new(RegionId(u64::MAX), u64::MAX);
    assert_eq!(va4.region_id(), RegionId(u64::MAX));
    assert_eq!(va4.offset(), u64::MAX);
}

#[test]
fn test_alloc_hints_default() {
    let hints = AllocHints::default();
    assert_eq!(hints.size, 4096);
    assert_eq!(hints.access, AccessPattern::Mixed);
    assert_eq!(hints.latency_class, LatencyClass::Normal);
    assert_eq!(hints.capacity_class, CapacityClass::Small);
    assert!(hints.pin.is_none());
    assert_eq!(hints.expected_readers, 0);
}

#[test]
fn test_latency_class_roundtrip() {
    assert_eq!(LatencyClass::from_u8(0), Some(LatencyClass::Critical));
    assert_eq!(LatencyClass::from_u8(1), Some(LatencyClass::Normal));
    assert_eq!(LatencyClass::from_u8(2), Some(LatencyClass::Bulk));
    assert_eq!(LatencyClass::from_u8(3), None);
}

#[test]
fn test_capacity_class_roundtrip() {
    assert_eq!(CapacityClass::from_u8(0), Some(CapacityClass::Small));
    assert_eq!(CapacityClass::from_u8(1), Some(CapacityClass::Large));
    assert_eq!(CapacityClass::from_u8(2), Some(CapacityClass::Huge));
    assert_eq!(CapacityClass::from_u8(3), None);
}

#[test]
fn test_access_pattern_roundtrip() {
    assert_eq!(AccessPattern::from_u8(0), Some(AccessPattern::ReadHeavy));
    assert_eq!(AccessPattern::from_u8(1), Some(AccessPattern::WriteHeavy));
    assert_eq!(AccessPattern::from_u8(2), Some(AccessPattern::Mixed));
    assert_eq!(AccessPattern::from_u8(3), None);
}
