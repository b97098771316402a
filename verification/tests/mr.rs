use unibus::addr::UbAddr;
use unibus::device::{AnyDevice, MemoryDevice};
use unibus::mr::{MrCacheEntry, MrCacheTable, MrTable};
use unibus::types::{DeviceKind, MrHandle, MrPerms, MrState, Verb};

fn make_table() -> MrTable {
    MrTable::new(1, 42)
}

#[test]
fn test_mr_register_and_lookup() {
    let mut table = make_table();
    let dev = table.add_device(AnyDevice::Memory(MemoryDevice::new(4096)));
    let (_addr, handle) = table.register(dev, 1024, MrPerms::read() | MrPerms::write()).unwrap();

    let entry = table.lookup(handle.0).unwrap();
    assert_eq!(entry.handle, handle.0);
    assert_eq!(entry.perms, MrPerms::read() | MrPerms::write());
    assert_eq!(entry.base_ub_addr.pod_id(), 1);
    assert_eq!(entry.base_ub_addr.node_id(), 42);
    assert_eq!(entry.base_ub_addr.device_id(), 0);
}

#[test]
fn test_mr_two_registrations_no_overlap() {
    let mut table = make_table();
    let dev = table.add_device(AnyDevice::Memory(MemoryDevice::new(4096)));
    let (addr1, _h1) = table.register(dev, 1024, MrPerms::read()).unwrap();
    let (addr2, _h2) = table.register(dev, 1024, MrPerms::write()).unwrap();
    // Offsets must not overlap
    assert_ne!(addr1.offset(), addr2.offset());
    assert!(addr2.offset() >= addr1.offset() + 1024);
}

#[test]
fn test_mr_deregister() {
    let mut table = make_table();
    let dev = table.add_device(AnyDevice::Memory(MemoryDevice::new(4096)));
    let (_, handle) = table.register(dev, 1024, MrPerms::read()).unwrap();
    table.deregister(handle).unwrap();
    assert!(table.lookup(handle.0).is_none());
}

#[test]
fn test_mr_deregister_nonexistent() {
    let mut table = make_table();
    assert!(table.deregister(MrHandle(999)).is_err());
}

#[test]
fn test_mr_lookup_by_addr() {
    let mut table = make_table();
    let dev = table.add_device(AnyDevice::Memory(MemoryDevice::new(4096)));
    let (base_addr, _) = table.register(dev, 1024, MrPerms::read() | MrPerms::write()).unwrap();

    // Access within the MR range
    let access_addr = base_addr.with_offset(base_addr.offset() + 100);
    let (entry, offset_in_mr) = table.lookup_by_addr(access_addr).unwrap();
    assert_eq!(offset_in_mr, 100);
    assert_eq!(entry.len, 1024);
}

#[test]
fn test_mr_lookup_by_addr_out_of_range() {
    let mut table = make_table();
    let dev = table.add_device(AnyDevice::Memory(MemoryDevice::new(4096)));
    let (base_addr, _) = table.register(dev, 1024, MrPerms::read()).unwrap();

    // Access outside the MR range
    let access_addr = base_addr.with_offset(base_addr.offset() + 2000);
    assert!(table.lookup_by_addr(access_addr).is_none());
}

#[test]
fn test_mr_inflight_refcount() {
    let mut table = make_table();
    let dev = table.add_device(AnyDevice::Memory(MemoryDevice::new(4096)));
    let (_, handle) = table.register(dev, 1024, MrPerms::read()).unwrap();

    assert!(table.try_inflight_inc(handle.0));
    assert!(table.try_inflight_inc(handle.0));
    assert_eq!(table.lookup(handle.0).unwrap().inflight_refs, 2);
    table.inflight_dec(handle.0);
    table.inflight_dec(handle.0);
    assert_eq!(table.lookup(handle.0).unwrap().inflight_refs, 0);
}

#[test]
fn test_mr_inflight_blocked_when_revoking() {
    let mut table = make_table();
    let dev = table.add_device(AnyDevice::Memory(MemoryDevice::new(4096)));
    let (_, handle) = table.register(dev, 1024, MrPerms::read()).unwrap();

    table.set_state(handle.0, MrState::Revoking);
    assert!(!table.try_inflight_inc(handle.0));
}

#[test]
fn test_mr_check_perms() {
    let mut table = make_table();
    let dev = table.add_device(AnyDevice::Memory(MemoryDevice::new(4096)));
    let (_, handle) = table.register(dev, 1024, MrPerms::read()).unwrap();

    let entry = table.lookup(handle.0).unwrap();
    assert!(entry.check_perms(Verb::ReadReq).is_ok());
    assert!(entry.check_perms(Verb::Write).is_err());
    assert!(entry.check_perms(Verb::AtomicCas).is_err());

    // Register with all perms
    let dev2 = table.add_device(AnyDevice::Memory(MemoryDevice::new(4096)));
    let (_, handle2) = table.register(dev2, 1024, MrPerms::read() | MrPerms::write() | MrPerms::atomic()).unwrap();
    let entry2 = table.lookup(handle2.0).unwrap();
    assert!(entry2.check_perms(Verb::ReadReq).is_ok());
    assert!(entry2.check_perms(Verb::Write).is_ok());
    assert!(entry2.check_perms(Verb::AtomicCas).is_ok());
    assert!(entry2.check_perms(Verb::AtomicFaa).is_ok());
}

#[test]
fn test_mr_cache_table() {
    let mut cache = MrCacheTable::new();
    let addr = UbAddr::new(1, 10, 0, 0, 0);
    cache.insert(MrCacheEntry {
        remote_mr_handle: 1,
        owner_node: 10,
        base_ub_addr: addr,
        len: 1024,
        perms: MrPerms::read(),
        device_kind: DeviceKind::Memory,
    });

    let found = cache.lookup_by_addr(addr.with_offset(100));
    assert!(found.is_some());
    assert_eq!(found.unwrap().remote_mr_handle, 1);

    cache.remove(10, 1);
    assert!(cache.lookup_by_addr(addr.with_offset(100)).is_none());
}
