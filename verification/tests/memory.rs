use unibus::addr::UbAddr;
use unibus::device::{
    stores_low_byte_first, ub_npu_alloc, ub_npu_open, AnyDevice, Device, MemoryDevice, NpuDevice,
    NpuIds,
};
use unibus::error::UbError;
use unibus::kv::{
    kv_addrs, kv_cas_local, kv_cas_outcome, kv_get_local, kv_init, kv_next_version, kv_put_local,
    kv_record, kv_show, pad_string, KvCas, KvError, KV_SLOT_SIZE,
};
use unibus::mr::{deregister_step, DeregisterStep, MrTable};
use unibus::requests::{count_kinds, device_for, has_room, register_region};
use unibus::types::{DeviceKind, MrHandle, MrPerms, MrState, StorageTier, Verb};
use unibus::verbs::{ub_atomic_cas_sync, ub_atomic_faa_sync, ub_read_sync, ub_write_sync};

fn all_perms() -> MrPerms {
    MrPerms::read() | MrPerms::write() | MrPerms::atomic()
}

#[test]
fn a_write_is_read_back_and_touches_nothing_else() {
    let mut dev = MemoryDevice::new(16);
    dev.write(0, &[0xAA; 16]).unwrap();
    dev.write(5, &[1, 2, 3]).unwrap();
    let mut buf = [0u8; 16];
    dev.read(0, &mut buf).unwrap();
    let mut want = [0xAA; 16];
    want[5..8].copy_from_slice(&[1, 2, 3]);
    assert_eq!(buf, want);
}

#[test]
fn accesses_beyond_the_end_change_nothing() {
    let mut dev = MemoryDevice::new(8);
    assert!(matches!(dev.write(1, &[9; 8]), Err(UbError::AddrInvalid)));
    assert!(matches!(dev.write(u64::MAX, &[9]), Err(UbError::AddrInvalid)));
    assert!(matches!(dev.read(u64::MAX, &mut [0; 2]), Err(UbError::AddrInvalid)));
    assert!(matches!(dev.atomic_faa(8, 1), Err(UbError::AddrInvalid)));
    assert!(matches!(dev.atomic_faa(4, 1), Err(UbError::Alignment)));
    assert!(matches!(dev.atomic_cas(u64::MAX, 0, 1), Err(UbError::Alignment)));
    let mut buf = [1u8; 8];
    dev.read(0, &mut buf).unwrap();
    assert_eq!(buf, [0; 8]);
    assert!(dev.write(8, &[]).is_ok());
}

#[test]
fn atomic_words_are_stored_as_the_machine_stores_them() {
    let mut dev = MemoryDevice::new(8);
    dev.atomic_cas(0, 0, 0x0102_0304_0506_0708).unwrap();
    let mut buf = [0u8; 8];
    dev.read(0, &mut buf).unwrap();
    assert_eq!(buf, 0x0102_0304_0506_0708u64.to_ne_bytes());
    assert_eq!(stores_low_byte_first(), buf[0] == 8);
}

#[test]
fn fetch_and_add_wraps_around() {
    let mut dev = NpuDevice::new(3, 1);
    dev.atomic_cas(0, 0, u64::MAX).unwrap();
    assert_eq!(dev.atomic_faa(0, 2).unwrap(), u64::MAX);
    assert_eq!(dev.atomic_faa(0, 0).unwrap(), 1);
    assert_eq!(dev.capacity(), 1024 * 1024);
}

#[test]
fn allocations_lie_apart_until_the_device_is_full() {
    let mut dev = NpuDevice::new(1, 1);
    assert_eq!(dev.allocate(10, 8).unwrap(), (0, 10));
    assert_eq!(dev.allocate(10, 64).unwrap(), (64, 10));
    assert_eq!(ub_npu_alloc(&mut dev, 10, 1).unwrap(), (74, 10));
    assert!(matches!(dev.allocate(1024 * 1024, 8), Err(UbError::NoResources)));
    // What did not fit takes no room
    assert_eq!(dev.allocate(1, 1).unwrap(), (84, 1));
}

#[test]
fn opened_devices_are_numbered_from_one() {
    let mut ids = NpuIds::new();
    assert_eq!(ub_npu_open(&mut ids, 1).device_id(), 1);
    assert_eq!(ub_npu_open(&mut ids, 1).device_id(), 2);
}

#[test]
fn devices_know_their_tier() {
    let dev = AnyDevice::Memory(MemoryDevice::new(1));
    assert_eq!(dev.tier(), StorageTier::Warm);
    assert_eq!(dev.peak_read_bw_mbps(), 10_000);
    assert_eq!(dev.write_latency_ns_p50(), 200);
    let dev = AnyDevice::Npu(NpuDevice::new(7, 1));
    assert_eq!((dev.kind(), dev.device_id()), (DeviceKind::Npu, 7));
    assert_eq!(dev.tier(), StorageTier::Hot);
    assert_eq!(dev.peak_write_bw_mbps(), 50_000);
}

#[test]
fn regions_start_at_multiples_of_eight_and_lie_apart() {
    let mut table = MrTable::new(1, 42);
    let dev = table.add_device(AnyDevice::Memory(MemoryDevice::new(4096)));
    let (a, ha) = table.register(dev, 13, MrPerms::read()).unwrap();
    let (b, hb) = table.register(dev, 1, MrPerms::read()).unwrap();
    let (c, _) = table.register(dev, 8, MrPerms::read()).unwrap();
    assert_eq!((a.offset(), b.offset(), c.offset()), (0, 16, 24));
    assert_eq!((ha, hb), (MrHandle(1), MrHandle(2)));
    // Each address lies in one region at most
    for offset in 0..40 {
        let found = table.lookup_by_addr(a.with_offset(offset)).map(|(e, _)| e.handle);
        let want = match offset {
            0..=12 => Some(1),
            16 => Some(2),
            24..=31 => Some(3),
            _ => None,
        };
        assert_eq!(found, want);
    }
    assert!(matches!(table.register(dev, 0, MrPerms::read()), Err(UbError::AddrInvalid)));
    // A handle is not given out again
    table.deregister(hb).unwrap();
    let (_, hd) = table.register(dev, 1, MrPerms::read()).unwrap();
    assert_eq!(hd, MrHandle(4));
    assert_eq!(table.list().len(), 3);
}

#[test]
fn devices_of_one_table_have_offsets_of_their_own() {
    let mut table = MrTable::new(1, 1);
    let memory = table.add_device(AnyDevice::Memory(MemoryDevice::new(64)));
    let npu = table.add_device(AnyDevice::Npu(NpuDevice::new(1, 1)));
    let (a, _) = table.register(memory, 64, all_perms()).unwrap();
    let (b, _) = table.register(npu, 64, all_perms()).unwrap();
    assert_eq!((a.offset(), b.offset()), (0, 0));
    assert_eq!((a.device_id(), b.device_id()), (0, 1));
    ub_write_sync(&mut table, b, &[5]).unwrap();
    let mut buf = [9u8];
    ub_read_sync(&table, a, &mut buf).unwrap();
    assert_eq!(buf, [0]);
    ub_read_sync(&table, b, &mut buf).unwrap();
    assert_eq!(buf, [5]);
    assert_eq!(count_kinds(&table), (1, 1));
}

#[test]
fn verbs_check_address_permission_and_bounds() {
    let mut table = MrTable::new(1, 1);
    let dev = table.add_device(AnyDevice::Memory(MemoryDevice::new(64)));
    let (addr, handle) = table.register(dev, 64, all_perms()).unwrap();
    let end = addr.with_offset(addr.offset() + 60);
    assert!(matches!(ub_write_sync(&mut table, end, &[0; 5]), Err(UbError::AddrInvalid)));
    assert!(matches!(ub_read_sync(&table, end, &mut [0; 5]), Err(UbError::AddrInvalid)));
    assert!(matches!(ub_atomic_faa_sync(&mut table, end, 1), Err(UbError::Alignment)));
    assert_eq!(ub_atomic_faa_sync(&mut table, addr, 7).unwrap(), 0);
    assert_eq!(ub_atomic_cas_sync(&mut table, addr, 7, 9).unwrap(), 7);
    assert_eq!(ub_atomic_cas_sync(&mut table, addr, 7, 1).unwrap(), 9);
    let elsewhere = UbAddr::new(1, 2, 0, 0, 0);
    assert!(matches!(ub_write_sync(&mut table, elsewhere, &[1]), Err(UbError::AddrInvalid)));
    table.deregister(handle).unwrap();
    assert!(matches!(ub_write_sync(&mut table, addr, &[1]), Err(UbError::AddrInvalid)));
}

#[test]
fn references_are_only_given_while_a_region_is_active() {
    let mut table = MrTable::new(1, 1);
    let (_, handle) = register_region(&mut table, false, 8, MrPerms::read()).unwrap();
    assert!(table.try_inflight_inc(handle.0));
    assert!(table.set_state(handle.0, MrState::Revoking));
    assert!(!table.try_inflight_inc(handle.0));
    assert_eq!(table.lookup(handle.0).unwrap().state(), MrState::Revoking);
    assert!(!table.set_state(99, MrState::Active));
    assert!(!table.try_inflight_inc(99));
}

#[test]
fn messages_need_the_permission_to_write() {
    let mut table = MrTable::new(1, 1);
    let (_, handle) = register_region(&mut table, false, 8, MrPerms::write()).unwrap();
    let entry = table.lookup(handle.0).unwrap();
    assert!(entry.check_perms(Verb::Send).is_ok());
    assert!(entry.check_perms(Verb::WriteImm).is_ok());
    assert!(matches!(entry.check_perms(Verb::ReadResp), Err(UbError::PermDenied)));
}

#[test]
fn requested_devices_are_of_the_asked_kind_and_size() {
    let memory = device_for(false, 100);
    assert_eq!((memory.kind(), memory.capacity()), (DeviceKind::Memory, 100));
    let npu = device_for(true, 1024 * 1024 + 1);
    assert_eq!((npu.kind(), npu.capacity()), (DeviceKind::Npu, 2 * 1024 * 1024));
    assert_eq!(device_for(true, 0).capacity(), 1024 * 1024);

    let mut table = MrTable::new(1, 1);
    assert!(matches!(
        register_region(&mut table, true, 0, all_perms()),
        Err(UbError::AddrInvalid)
    ));
    register_region(&mut table, true, 10, all_perms()).unwrap();
    register_region(&mut table, false, 10, all_perms()).unwrap();
    register_region(&mut table, false, 10, all_perms()).unwrap();
    assert_eq!(count_kinds(&table), (2, 1));
}

#[test]
fn texts_are_cut_or_filled_up() {
    assert_eq!(pad_string("ab", 4), vec![b'a', b'b', 0, 0]);
    assert_eq!(pad_string("abcdef", 4), b"abcd".to_vec());
    let record = kv_record("k", "v");
    assert_eq!(record.len(), 96);
    assert_eq!((record[0], record[1], record[32], record[33]), (b'k', 0, b'v', 0));
}

#[test]
fn what_is_stored_is_shown_with_rising_versions() {
    let mut table = MrTable::new(1, 1);
    let (addr, _) = kv_init(&mut table, 4, false).unwrap();
    let little = stores_low_byte_first();

    assert_eq!(kv_put_local(&mut table, addr, 2, "clé", "wért").unwrap().unwrap(), 1);
    assert_eq!(kv_put_local(&mut table, addr, 2, "clé", "neu").unwrap().unwrap(), 2);
    let data = kv_get_local(&table, addr, 2).unwrap().unwrap();
    let entry = kv_show(&data, "clé", little).unwrap();
    assert_eq!((entry.key.as_str(), entry.value.as_str(), entry.version), ("clé", "neu", 2));

    // The neighbours are untouched
    for slot in [1, 3] {
        let data = kv_get_local(&table, addr, slot).unwrap().unwrap();
        assert_eq!(data, vec![0; KV_SLOT_SIZE]);
        let entry = kv_show(&data, "any", little).unwrap();
        assert_eq!((entry.key.as_str(), entry.value.as_str(), entry.version), ("", "", 0));
    }

    match kv_show(&data, "other", little) {
        Err(KvError::KeyMismatch(found)) => assert_eq!(found, "clé"),
        _ => panic!("expected a mismatch"),
    }
    assert_eq!(KvError::KeyMismatch(String::new()).message(), "key mismatch");
}

#[test]
fn updates_that_expect_a_version() {
    let mut table = MrTable::new(1, 1);
    let (addr, _) = kv_init(&mut table, 1, true).unwrap();
    let swapped = kv_cas_local(&mut table, addr, 0, "k", 0, "one").unwrap().unwrap();
    assert_eq!(swapped, KvCas::Swapped { old_version: 0, new_version: 1 });
    let failed = kv_cas_local(&mut table, addr, 0, "k", 0, "two").unwrap().unwrap();
    assert_eq!(failed, KvCas::Failed { current_version: 1 });
    let data = kv_get_local(&table, addr, 0).unwrap().unwrap();
    assert_eq!(kv_show(&data, "k", stores_low_byte_first()).unwrap().value, "one");
}

#[test]
fn versions_start_over_after_the_last() {
    assert_eq!(kv_next_version(4), 5);
    assert_eq!(kv_next_version(u64::MAX), 0);
    assert_eq!(kv_cas_outcome(4, 4), KvCas::Swapped { old_version: 4, new_version: 5 });
    assert_eq!(kv_cas_outcome(4, 6), KvCas::Failed { current_version: 6 });
}

#[test]
fn a_region_must_fit_behind_the_others() {
    let mut table = MrTable::new(1, 1);
    assert!(has_room(&table, false, 64));
    assert!(has_room(&table, true, 64));
    assert!(!has_room(&table, false, u64::MAX));
    assert!(!has_room(&table, true, u64::MAX));
    assert!(table.has_room(0, u64::MAX - 7));
    register_region(&mut table, false, 1, all_perms()).unwrap();
    assert!(!table.has_room(0, u64::MAX - 7));
    assert!(table.has_room(1, u64::MAX - 7));
}

#[test]
fn slots_beyond_the_store_are_refused() {
    let mut table = MrTable::new(1, 1);
    assert!(matches!(kv_init(&mut table, 0, false), Err(UbError::AddrInvalid)));
    let (addr, _) = kv_init(&mut table, 1, false).unwrap();
    assert!(kv_get_local(&table, addr, 1).unwrap().is_err());
    assert!(kv_put_local(&mut table, addr, 1, "k", "v").unwrap().is_err());
    assert!(kv_cas_local(&mut table, addr, u32::MAX, "k", 0, "v").unwrap().is_err());
    // Another node's region is not local
    let remote = UbAddr::new(1, 2, 0, 0, 0);
    assert!(kv_get_local(&table, remote, 0).is_none());
    assert!(kv_put_local(&mut table, remote, 0, "k", "v").is_none());
    assert!(kv_cas_local(&mut table, remote, 0, "k", 0, "v").is_none());
}

#[test]
fn remote_slots_have_addresses_of_data_and_version() {
    let base = UbAddr::new(1, 2, 3, 1000, 0);
    let (data, version) = kv_addrs(base, 2).unwrap();
    assert_eq!(data, base.with_offset(1208));
    assert_eq!(version, base.with_offset(1304));
    assert!(kv_addrs(base.with_offset(u64::MAX - 95), 0).is_none());
    assert!(kv_addrs(base.with_offset(u64::MAX - 96), 0).is_some());
}

#[test]
fn slot_bytes_that_are_no_text_show_replacements() {
    let mut data = vec![0u8; KV_SLOT_SIZE];
    data[32] = 0xFF;
    let entry = kv_show(&data, "k", true).unwrap();
    assert_eq!(entry.value, "\u{FFFD}");
    data[96] = 5;
    data[0] = b'k';
    assert_eq!(kv_show(&data, "k", true).unwrap().version, 5);
    assert_eq!(kv_show(&data, "k", false).unwrap().version, 5 << 56);
    match kv_show(&data[..103], "k", true) {
        Err(e) => assert_eq!(e.message(), "read returned 103 bytes, expected 104"),
        Ok(_) => panic!("expected an error"),
    }
}

#[test]
fn a_region_is_removed_once_nothing_refers_to_it() {
    assert_eq!(deregister_step(0, 0, 500), DeregisterStep::Remove);
    assert_eq!(deregister_step(-1, 900, 500), DeregisterStep::Remove);
    assert_eq!(deregister_step(1, 499, 500), DeregisterStep::Wait);
    assert_eq!(deregister_step(1, 500, 500), DeregisterStep::Timeout);
}
