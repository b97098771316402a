use unibus::addr::UbAddr;
use unibus::clock::low_millis;
use unibus::config::{
    CacheConfig, ControlConfig, DataConfig, DeviceConfig, FlowConfig, HeartbeatConfig, JettyConfig,
    ManagedConfig, MrConfig, NodeConfig, ObsConfig, TransportConfig,
};
use unibus::error::{status_to_string, UbError, UB_ERR_INTERNAL};
use unibus::requests::{names_npu, parse_perms, parse_ub_addr, perms_of};
use unibus::types::{MrPerms, NodeState};

fn text_error(s: &str) -> String {
    match UbAddr::from_text(s) {
        Err(UbError::Internal(m)) => m,
        _ => panic!("expected an internal error"),
    }
}

#[test]
fn address_text_of_extreme_fields_round_trips() {
    for addr in [
        UbAddr::new(0, 0, 0, 0, 0),
        UbAddr::new(u16::MAX, u16::MAX, u16::MAX, u64::MAX, u16::MAX),
        UbAddr::new(0x8000, 1, 0x00FF, 0x8000_0000_0000_0001, 7),
    ] {
        assert_eq!(UbAddr::from_text(&addr.to_text()).unwrap(), addr);
        assert_eq!(UbAddr::from_bytes(&addr.to_bytes()), addr);
    }
    assert_eq!(
        UbAddr::new(u16::MAX, u16::MAX, u16::MAX, u64::MAX, u16::MAX).to_text(),
        "0xffff:ffff:ffff:ffffffffffffffff:ffff"
    );
}

#[test]
fn address_text_needs_no_leading_zeros_and_takes_upper_case() {
    let addr = UbAddr::from_text("0x1:2A:0:DeadBeef:0").unwrap();
    assert_eq!(addr, UbAddr::new(1, 42, 0, 0xDEADBEEF, 0));
}

#[test]
fn address_bytes_are_big_endian_from_pod_to_reserved() {
    let addr = UbAddr::new(0x0102, 0x0304, 0x0506, 0x0708_090A_0B0C_0D0E, 0x0F10);
    let bytes: Vec<u8> = (1..=16).collect();
    assert_eq!(addr.to_bytes().to_vec(), bytes);
}

#[test]
fn address_errors_name_the_reason() {
    assert_eq!(text_error("1:2:3:4:5"), "UB address must start with '0x': 1:2:3:4:5");
    assert_eq!(
        text_error("0x1:2:3"),
        "UB address must have 5 colon-separated segments: 1:2:3"
    );
    assert_eq!(
        text_error("0x10000:2:3:4:5"),
        "invalid pod_id '10000': number too large to fit in target type"
    );
    assert_eq!(
        text_error("0x1:zz:3:4:5"),
        "invalid node_id 'zz': invalid digit found in string"
    );
    assert_eq!(
        text_error("0x1:2::4:5"),
        "invalid device_id '': cannot parse integer from empty string"
    );
    assert!(text_error("0x1:2:3:10000000000000000:5").starts_with("invalid offset "));
    assert!(text_error("0x1:2:3:4:g").starts_with("invalid reserved "));
}

#[test]
fn with_offset_keeps_the_other_fields() {
    let addr = UbAddr::new(9, 8, 7, 6, 5).with_offset(u64::MAX);
    assert_eq!(addr, UbAddr::new(9, 8, 7, u64::MAX, 5));
}

#[test]
fn request_addresses_carry_the_reason() {
    assert_eq!(parse_ub_addr("0x1:2:0:10:0"), Ok(UbAddr::new(1, 2, 0, 16, 0)));
    assert_eq!(
        parse_ub_addr("nope"),
        Err("invalid ub_addr: internal error: UB address must start with '0x': nope".to_string())
    );
}

#[test]
fn permission_letters_count_in_any_case_and_order() {
    assert_eq!(parse_perms("RW"), MrPerms::read() | MrPerms::write());
    assert_eq!(parse_perms("awr").bits(), 0b111);
    assert_eq!(parse_perms("xyz"), MrPerms::empty());
    assert_eq!(parse_perms("AAA"), MrPerms::atomic());
    // Only lower case counts once the text has been lowered
    assert_eq!(perms_of("RW"), MrPerms::empty());
    assert_eq!(perms_of("rw"), MrPerms::read() | MrPerms::write());
}

#[test]
fn device_names() {
    assert!(names_npu("npu"));
    assert!(!names_npu("NPU"));
    assert!(!names_npu("memory"));
}

#[test]
fn unknown_permission_bits_are_dropped() {
    assert_eq!(MrPerms::from_bits_truncate(0xFF).bits(), 0b111);
    assert_eq!(MrPerms::from_bits_truncate(0b1010), MrPerms::write());
}

#[test]
fn every_error_has_its_status_and_text() {
    let io = std::io::Error::new(std::io::ErrorKind::Other, "boom");
    let all = [
        (UbError::AddrInvalid, 1, "ADDR_INVALID", "address invalid"),
        (UbError::PermDenied, 2, "PERM_DENIED", "permission denied"),
        (
            UbError::Alignment,
            3,
            "ALIGNMENT",
            "alignment error: address must be 8-byte aligned for atomic operations",
        ),
        (UbError::LinkDown, 4, "LINK_DOWN", "link down"),
        (UbError::NoResources, 5, "NO_RESOURCES", "no resources"),
        (UbError::Timeout, 6, "TIMEOUT", "timeout"),
        (UbError::PayloadTooLarge, 7, "PAYLOAD_TOO_LARGE", "payload too large"),
        (UbError::Flushed, 8, "FLUSHED", "flushed"),
        (UbError::internal("x"), 9, "INTERNAL", "internal error: x"),
        (UbError::Config("y".to_string()), 9, "INTERNAL", "config error: y"),
        (UbError::Io(io), 9, "INTERNAL", "IO error: boom"),
    ];
    for (error, code, name, text) in all {
        assert_eq!(error.status_code(), code);
        assert_eq!(status_to_string(error.status_code()), name);
        assert_eq!(error.message(), text);
    }
    assert_eq!(status_to_string(0), "OK");
    assert_eq!(status_to_string(UB_ERR_INTERNAL + 1), "UNKNOWN");
}

#[test]
fn every_node_state_has_its_name() {
    let names = [
        (NodeState::Joining, "Joining"),
        (NodeState::Active, "Active"),
        (NodeState::Suspect, "Suspect"),
        (NodeState::Down, "Down"),
    ];
    for (state, name) in names {
        assert_eq!(state.name(), name);
    }
}

#[test]
fn default_configuration() {
    let config = NodeConfig::default();
    assert_eq!(config.pod_id, 1);
    assert_eq!(config.data.mtu, 1400);
    assert_eq!(config.transport.rto_ms, 200);
    assert_eq!(config.flow.initial_credits, 64);
    assert_eq!(config.heartbeat.interval_ms, 1000);
    assert_eq!(config.heartbeat.fail_after, 3);
    assert!(!config.managed.enabled);
    assert_eq!(config.control.listen, ControlConfig::default().listen);
    assert_eq!(config.data.listen, DataConfig::default().listen);
    assert_eq!(config.jetty.jfc_depth, JettyConfig::default().jfc_depth);
    assert_eq!(TransportConfig::default().max_retries, 8);
    assert_eq!(FlowConfig::default().initial_credits, 64);
    assert_eq!(HeartbeatConfig::default().fail_after, 3);
    assert_eq!(ManagedConfig::default().writer_lease_ms, 5000);
    assert_eq!(CacheConfig::default().eviction, "lru");
    assert_eq!(ObsConfig::default().metrics_listen, config.obs.metrics_listen);
    assert_eq!(MrConfig::default().deregister_timeout_ms, config.mr.deregister_timeout_ms);
    assert_eq!(DeviceConfig::default().npu.enabled, config.device.npu.enabled);
}

#[test]
fn milliseconds_keep_their_low_bits() {
    assert_eq!(low_millis(None), 0);
    assert_eq!(low_millis(Some(1234)), 1234);
    assert_eq!(low_millis(Some(u64::MAX as u128 + 5)), 4);
}
