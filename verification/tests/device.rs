use unibus::device::{ub_npu_open, Device, MemoryDevice, NpuDevice, NpuIds};
use unibus::types::{DeviceKind, StorageTier};

/// Helper: write a u64 value in native byte order for atomic tests.
fn write_u64_native(dev: &mut MemoryDevice, offset: u64, val: u64) {
    dev.write(offset, &val.to_ne_bytes()).unwrap();
}

/// Helper: read a u64 value in native byte order.
fn read_u64_native(dev: &MemoryDevice, offset: u64) -> u64 {
    let mut buf = [0u8; 8];
    dev.read(offset, &mut buf).unwrap();
    u64::from_ne_bytes(buf)
}

#[test]
fn test_memory_device_read_write() {
    let mut dev = MemoryDevice::new(4096);
    dev.write(0, &[1, 2, 3, 4]).unwrap();
    let mut buf = [0u8; 4];
    dev.read(0, &mut buf).unwrap();
    assert_eq!(buf, [1, 2, 3, 4]);
}

#[test]
fn test_memory_device_out_of_bounds() {
    let mut dev = MemoryDevice::new(16);
    assert!(dev.read(0, &mut [0u8; 17]).is_err());
    assert!(dev.write(8, &[0u8; 9]).is_err());
}

#[test]
fn test_memory_device_atomic_cas_success() {
    let mut dev = MemoryDevice::new(4096);
    write_u64_native(&mut dev, 0, 0);

    let old = dev.atomic_cas(0, 0, 42).unwrap();
    assert_eq!(old, 0);

    // Verify value was updated
    assert_eq!(read_u64_native(&dev, 0), 42);
}

#[test]
fn test_memory_device_atomic_cas_failure() {
    let mut dev = MemoryDevice::new(4096);
    write_u64_native(&mut dev, 0, 42);

    let old = dev.atomic_cas(0, 0, 99).unwrap();
    assert_eq!(old, 42); // CAS failed, old value returned

    // Value should NOT have changed
    assert_eq!(read_u64_native(&dev, 0), 42);
}

#[test]
fn test_memory_device_atomic_faa() {
    let mut dev = MemoryDevice::new(4096);
    write_u64_native(&mut dev, 0, 42);

    let old = dev.atomic_faa(0, 10).unwrap();
    assert_eq!(old, 42);

    assert_eq!(read_u64_native(&dev, 0), 52);
}

#[test]
fn test_memory_device_atomic_alignment_error() {
    let mut dev = MemoryDevice::new(4096);
    assert!(dev.atomic_cas(1, 0, 42).is_err());
    assert!(dev.atomic_faa(3, 10).is_err());
}

#[test]
fn test_memory_device_atomic_out_of_bounds() {
    let mut dev = MemoryDevice::new(8);
    assert!(dev.atomic_cas(8, 0, 1).is_err());
}

#[test]
fn test_memory_device_kind_and_id() {
    let dev = MemoryDevice::new(1024);
    assert_eq!(dev.kind(), DeviceKind::Memory);
    assert_eq!(dev.device_id(), 0);
    assert_eq!(dev.capacity(), 1024);
}

#[test]
fn test_npu_device_read_write() {
    let mut dev = NpuDevice::new(1, 1); // 1 MiB
    dev.write(0, &[1, 2, 3, 4]).unwrap();
    let mut buf = [0u8; 4];
    dev.read(0, &mut buf).unwrap();
    assert_eq!(buf, [1, 2, 3, 4]);
}

#[test]
fn test_npu_device_atomic_cas() {
    let mut dev = NpuDevice::new(1, 1);
    dev.write(0, &0u64.to_ne_bytes()).unwrap();
    let old = dev.atomic_cas(0, 0, 42).unwrap();
    assert_eq!(old, 0);
    let mut buf = [0u8; 8];
    dev.read(0, &mut buf).unwrap();
    assert_eq!(u64::from_ne_bytes(buf), 42);
}

#[test]
fn test_npu_device_atomic_faa() {
    let mut dev = NpuDevice::new(1, 1);
    dev.write(0, &10u64.to_ne_bytes()).unwrap();
    let old = dev.atomic_faa(0, 5).unwrap();
    assert_eq!(old, 10);
    let mut buf = [0u8; 8];
    dev.read(0, &mut buf).unwrap();
    assert_eq!(u64::from_ne_bytes(buf), 15);
}

#[test]
fn test_npu_alloc_no_overlap() {
    let mut dev = NpuDevice::new(1, 1);
    let (off1, _) = dev.allocate(1024, 8).unwrap();
    let (off2, _) = dev.allocate(1024, 8).unwrap();
    assert_eq!(off1, 0);
    assert_eq!(off2, 1024);
}

#[test]
fn test_npu_alloc_alignment() {
    let mut dev = NpuDevice::new(1, 1);
    let (off, _) = dev.allocate(100, 64).unwrap();
    assert_eq!(off % 64, 0);
}

#[test]
fn test_npu_device_kind_and_id() {
    let dev = NpuDevice::new(1, 1);
    assert_eq!(dev.kind(), DeviceKind::Npu);
    assert!(dev.device_id() >= 1);
}

#[test]
fn test_npu_device_tier_is_hot() {
    let dev = NpuDevice::new(1, 1);
    assert_eq!(dev.tier(), StorageTier::Hot);
    assert_eq!(dev.peak_read_bw_mbps(), 50_000);
    assert_eq!(dev.read_latency_ns_p50(), 50);
}

#[test]
fn test_ub_npu_open() {
    let npu = ub_npu_open(&mut NpuIds::new(), 1);
    assert_eq!(npu.kind(), DeviceKind::Npu);
    assert!(npu.device_id() >= 1);
}
