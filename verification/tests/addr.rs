use unibus::addr::UbAddr;

#[test]
fn test_ub_addr_roundtrip() {
    let addr = UbAddr::new(1, 42, 0, 0xDEADBEEF, 0);
    assert_eq!(addr.pod_id(), 1);
    assert_eq!(addr.node_id(), 42);
    assert_eq!(addr.device_id(), 0);
    assert_eq!(addr.offset(), 0xDEADBEEF);
    assert_eq!(addr.reserved(), 0);
}

#[test]
fn test_ub_addr_text_roundtrip() {
    let addr = UbAddr::new(1, 0x42, 0, 0xDEADBEEF, 0);
    let text = addr.to_text();
    assert_eq!(text, "0x0001:0042:0000:00000000deadbeef:0000");
    let parsed = UbAddr::from_text(&text).unwrap();
    assert_eq!(addr, parsed);
}

#[test]
fn test_ub_addr_bytes_roundtrip() {
    let addr = UbAddr::new(1, 66, 1, 0x1234_5678_9ABC_DEF0, 0);
    let bytes = addr.to_bytes();
    let restored = UbAddr::from_bytes(&bytes);
    assert_eq!(addr, restored);
}

#[test]
fn test_ub_addr_with_offset() {
    let addr = UbAddr::new(1, 42, 0, 0, 0);
    let addr2 = addr.with_offset(1024);
    assert_eq!(addr2.offset(), 1024);
    assert_eq!(addr2.pod_id(), 1);
    assert_eq!(addr2.node_id(), 42);
}

#[test]
fn test_ub_addr_example() {
    let addr = UbAddr::new(1, 66, 0, 0xDEADBEEF, 0);
    let text = addr.to_text();
    assert!(text.starts_with("0x0001:0042:0000:"));
}

#[test]
fn test_ub_addr_parse_errors() {
    assert!(UbAddr::from_text("invalid").is_err());
    assert!(UbAddr::from_text("0x1:2:3").is_err()); // only 3 segments
    assert!(UbAddr::from_text("1:2:3:4:5").is_err()); // missing 0x prefix
    assert!(UbAddr::from_text("0x1:2:3:4:5:6").is_err()); // 6 segments
}
