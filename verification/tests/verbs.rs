use unibus::addr::UbAddr;
use unibus::device::{AnyDevice, MemoryDevice};
use unibus::error::UbError;
use unibus::mr::MrTable;
use unibus::types::MrPerms;
use unibus::verbs::{ub_atomic_cas_sync, ub_atomic_faa_sync, ub_read_sync, ub_write_sync};

fn make_table_with_mr(perms: MrPerms, len: u64) -> (MrTable, UbAddr) {
    let mut table = MrTable::new(1, 42);
    let dev = table.add_device(AnyDevice::Memory(MemoryDevice::new(4096)));
    let (addr, _handle) = table.register(dev, len, perms).unwrap();
    (table, addr)
}

#[test]
fn test_ub_read_sync_ok() {
    let (mut table, addr) = make_table_with_mr(MrPerms::read() | MrPerms::write(), 1024);
    // Write some data first
    ub_write_sync(&mut table, addr, &[1, 2, 3, 4]).unwrap();
    let mut buf = [0u8; 4];
    ub_read_sync(&table, addr, &mut buf).unwrap();
    assert_eq!(buf, [1, 2, 3, 4]);
}

#[test]
fn test_ub_read_sync_perm_denied() {
    let (table, addr) = make_table_with_mr(MrPerms::write(), 1024);
    let mut buf = [0u8; 4];
    assert!(matches!(ub_read_sync(&table, addr, &mut buf), Err(UbError::PermDenied)));
}

#[test]
fn test_ub_write_sync_perm_denied() {
    let (mut table, addr) = make_table_with_mr(MrPerms::read(), 1024);
    assert!(matches!(ub_write_sync(&mut table, addr, &[1, 2, 3]), Err(UbError::PermDenied)));
}

#[test]
fn test_ub_atomic_cas_sync_ok() {
    let (mut table, addr) = make_table_with_mr(MrPerms::write() | MrPerms::atomic(), 1024);
    // Write initial value
    ub_write_sync(&mut table, addr, &0u64.to_ne_bytes()).unwrap();
    let old = ub_atomic_cas_sync(&mut table, addr, 0, 42).unwrap();
    assert_eq!(old, 0);
}

#[test]
fn test_ub_atomic_cas_sync_perm_denied() {
    let (mut table, addr) = make_table_with_mr(MrPerms::read() | MrPerms::write(), 1024);
    assert!(matches!(
        ub_atomic_cas_sync(&mut table, addr, 0, 42),
        Err(UbError::PermDenied)
    ));
}

#[test]
fn test_ub_atomic_cas_sync_alignment() {
    let (mut table, base_addr) = make_table_with_mr(MrPerms::atomic(), 1024);
    let misaligned = base_addr.with_offset(base_addr.offset() + 3);
    assert!(matches!(
        ub_atomic_cas_sync(&mut table, misaligned, 0, 42),
        Err(UbError::Alignment)
    ));
}

#[test]
fn test_ub_atomic_faa_sync_ok() {
    let (mut table, addr) = make_table_with_mr(MrPerms::write() | MrPerms::atomic(), 1024);
    ub_write_sync(&mut table, addr, &10u64.to_ne_bytes()).unwrap();
    let old = ub_atomic_faa_sync(&mut table, addr, 5).unwrap();
    assert_eq!(old, 10);
}

#[test]
fn test_ub_atomic_faa_sync_perm_denied() {
    let (mut table, addr) = make_table_with_mr(MrPerms::read(), 1024);
    assert!(matches!(
        ub_atomic_faa_sync(&mut table, addr, 5),
        Err(UbError::PermDenied)
    ));
}

#[test]
fn test_ub_read_sync_addr_invalid() {
    let table = MrTable::new(1, 42);
    let bad_addr = UbAddr::new(99, 99, 99, 0, 0);
    let mut buf = [0u8; 4];
    assert!(matches!(ub_read_sync(&table, bad_addr, &mut buf), Err(UbError::AddrInvalid)));
}
