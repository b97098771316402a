use unibus::sub_alloc::SubAllocator;

#[test]
fn test_sub_allocator_bump() {
    let mut alloc = SubAllocator::new(1024, 4096);
    let off1 = alloc.allocate(512).unwrap();
    assert_eq!(off1, 1024); // base_offset + 0

    let off2 = alloc.allocate(256).unwrap();
    assert_eq!(off2, 1024 + 512); // base_offset + 512

    let off3 = alloc.allocate(1024).unwrap();
    assert_eq!(off3, 1024 + 512 + 256); // base_offset + 768

    assert_eq!(alloc.allocated_bytes(), 512 + 256 + 1024);
    assert_eq!(alloc.free_bytes(), 4096 - 512 - 256 - 1024);
}

#[test]
fn test_sub_allocator_exhaustion() {
    let mut alloc = SubAllocator::new(0, 1024);
    assert!(alloc.allocate(512).is_some());
    assert!(alloc.allocate(512).is_some());
    assert!(alloc.allocate(1).is_none()); // exhausted
}

#[test]
fn test_sub_allocator_exact_fit() {
    let mut alloc = SubAllocator::new(0, 100);
    assert!(alloc.allocate(100).is_some()); // exact fit
    assert!(alloc.allocate(1).is_none());
}

#[test]
fn test_sub_allocator_free_is_noop() {
    let mut alloc = SubAllocator::new(0, 1024);
    let off = alloc.allocate(256).unwrap();
    alloc.free(off, 256); // no-op, space not reclaimed
    // Still exhausted after first alloc + no-op free + second alloc
    assert!(alloc.allocate(768).is_some());
    assert!(alloc.allocate(1).is_none());
}
