use unibus::addr::UbAddr;
use unibus::message::{
    decode_ctrl_message, encode_ctrl_message, AllocReqPayload, AllocRespPayload, ControlMsg,
    CtrlMsgType, DeviceProfileEntry, DeviceProfilePublishPayload, FetchPayload, FetchRespPayload,
    HeartbeatPayload, HelloPayload, InvalidateAckPayload, InvalidatePayload, JoinPayload,
    MemberDownPayload, MemberSnapshotPayload, MrPublishPayload, MrRevokePayload,
    RegionCreateOkPayload, RegionCreatePayload, RegionDeletePayload, SnapshotNodeInfo,
    WriteLockGrantedPayload, WriteLockReqPayload, WriteUnlockPayload,
};
use unibus::types::{
    AccessPattern, CapacityClass, DeviceKind, LatencyClass, MrPerms, RegionId, StorageTier, UbVa,
};

#[test]
fn test_ctrl_framing_roundtrip() {
    let payload = vec![1, 2, 3, 4];
    let encoded = encode_ctrl_message(CtrlMsgType::Hello, &payload);
    let (msg_type, decoded_payload) = decode_ctrl_message(&encoded).unwrap();
    assert_eq!(msg_type, CtrlMsgType::Hello);
    assert_eq!(decoded_payload, payload);
}

#[test]
fn test_hello_roundtrip() {
    let hello = HelloPayload {
        node_id: 42,
        version: 1,
        local_epoch: 12345,
        initial_credits: 64,
        data_addr: "10.0.0.1:7901".to_string(),
    };
    let encoded = hello.encode();
    let decoded = HelloPayload::decode(&encoded).unwrap();
    assert_eq!(decoded.node_id, 42);
    assert_eq!(decoded.version, 1);
    assert_eq!(decoded.local_epoch, 12345);
    assert_eq!(decoded.initial_credits, 64);
    assert_eq!(decoded.data_addr, "10.0.0.1:7901");
}

#[test]
fn test_heartbeat_roundtrip() {
    let hb = HeartbeatPayload { node_id: 42, timestamp: 1234567890 };
    let encoded = hb.encode();
    let decoded = HeartbeatPayload::decode(&encoded).unwrap();
    assert_eq!(decoded.node_id, 42);
    assert_eq!(decoded.timestamp, 1234567890);
}

#[test]
fn test_mr_publish_roundtrip() {
    let mr = MrPublishPayload {
        owner_node: 1,
        mr_handle: 5,
        base_ub_addr: UbAddr::new(1, 1, 0, 0, 0),
        len: 1024,
        perms: MrPerms::read() | MrPerms::write(),
        device_kind: DeviceKind::Memory,
    };
    let encoded = mr.encode();
    let decoded = MrPublishPayload::decode(&encoded).unwrap();
    assert_eq!(decoded.owner_node, 1);
    assert_eq!(decoded.mr_handle, 5);
    assert_eq!(decoded.len, 1024);
    assert_eq!(decoded.perms, MrPerms::read() | MrPerms::write());
    assert_eq!(decoded.device_kind, DeviceKind::Memory);
}

#[test]
fn test_mr_revoke_roundtrip() {
    let revoke = MrRevokePayload {
        owner_node: 1,
        mr_handle: 5,
    };
    let encoded = revoke.encode();
    let decoded = MrRevokePayload::decode(&encoded).unwrap();
    assert_eq!(decoded.owner_node, 1);
    assert_eq!(decoded.mr_handle, 5);
}

#[test]
fn test_control_msg_full_roundtrip() {
    let msg = ControlMsg::Hello(HelloPayload {
        node_id: 42,
        version: 1,
        local_epoch: 999,
        initial_credits: 32,
        data_addr: "192.168.1.1:7901".to_string(),
    });
    let encoded = msg.encode();
    let decoded = ControlMsg::decode(&encoded).unwrap();
    if let ControlMsg::Hello(h) = decoded {
        assert_eq!(h.node_id, 42);
        assert_eq!(h.initial_credits, 32);
        assert_eq!(h.data_addr, "192.168.1.1:7901");
    } else {
        panic!("expected Hello");
    }
}

#[test]
fn test_member_down_roundtrip() {
    let msg = ControlMsg::MemberDown(MemberDownPayload {
        node_id: 5,
        reason: 1,
    });
    let encoded = msg.encode();
    let decoded = ControlMsg::decode(&encoded).unwrap();
    if let ControlMsg::MemberDown(d) = decoded {
        assert_eq!(d.node_id, 5);
        assert_eq!(d.reason, 1);
    } else {
        panic!("expected MemberDown");
    }
}

#[test]
fn test_join_payload_roundtrip() {
    let join = JoinPayload {
        node_id: 10,
        epoch: 555,
        data_addr: "10.0.0.10:7901".to_string(),
        control_addr: "10.0.0.10:7900".to_string(),
        initial_credits: 32,
    };
    let encoded = join.encode();
    let decoded = JoinPayload::decode(&encoded).unwrap();
    assert_eq!(decoded.node_id, 10);
    assert_eq!(decoded.epoch, 555);
    assert_eq!(decoded.data_addr, "10.0.0.10:7901");
    assert_eq!(decoded.control_addr, "10.0.0.10:7900");
    assert_eq!(decoded.initial_credits, 32);
}

#[test]
fn test_member_snapshot_roundtrip() {
    let snapshot = MemberSnapshotPayload {
        nodes: vec![
            SnapshotNodeInfo {
                node_id: 1,
                state: 1, // Active
                data_addr: "10.0.0.1:7901".to_string(),
                control_addr: "10.0.0.1:7900".to_string(),
                epoch: 100,
            },
            SnapshotNodeInfo {
                node_id: 2,
                state: 1,
                data_addr: "10.0.0.2:7901".to_string(),
                control_addr: "10.0.0.2:7900".to_string(),
                epoch: 200,
            },
        ],
    };
    let encoded = snapshot.encode();
    let decoded = MemberSnapshotPayload::decode(&encoded).unwrap();
    assert_eq!(decoded.nodes.len(), 2);
    assert_eq!(decoded.nodes[0].node_id, 1);
    assert_eq!(decoded.nodes[0].state, 1);
    assert_eq!(decoded.nodes[0].data_addr, "10.0.0.1:7901");
    assert_eq!(decoded.nodes[0].control_addr, "10.0.0.1:7900");
    assert_eq!(decoded.nodes[0].epoch, 100);
    assert_eq!(decoded.nodes[1].node_id, 2);
    assert_eq!(decoded.nodes[1].epoch, 200);
}

#[test]
fn test_join_control_msg_roundtrip() {
    let msg = ControlMsg::Join(JoinPayload {
        node_id: 5,
        epoch: 42,
        data_addr: "192.168.1.5:7901".to_string(),
        control_addr: "192.168.1.5:7900".to_string(),
        initial_credits: 64,
    });
    let encoded = msg.encode();
    let decoded = ControlMsg::decode(&encoded).unwrap();
    if let ControlMsg::Join(j) = decoded {
        assert_eq!(j.node_id, 5);
        assert_eq!(j.epoch, 42);
        assert_eq!(j.data_addr, "192.168.1.5:7901");
        assert_eq!(j.control_addr, "192.168.1.5:7900");
        assert_eq!(j.initial_credits, 64);
    } else {
        panic!("expected Join");
    }
}

#[test]
fn test_member_snapshot_control_msg_roundtrip() {
    let msg = ControlMsg::MemberSnapshot(MemberSnapshotPayload {
        nodes: vec![SnapshotNodeInfo {
            node_id: 3,
            state: 1,
            data_addr: "10.0.0.3:7901".to_string(),
            control_addr: "10.0.0.3:7900".to_string(),
            epoch: 300,
        }],
    });
    let encoded = msg.encode();
    let decoded = ControlMsg::decode(&encoded).unwrap();
    if let ControlMsg::MemberSnapshot(s) = decoded {
        assert_eq!(s.nodes.len(), 1);
        assert_eq!(s.nodes[0].node_id, 3);
    } else {
        panic!("expected MemberSnapshot");
    }
}

#[test]
fn test_device_profile_entry_roundtrip() {
    let entry = DeviceProfileEntry {
        node_id: 1,
        device_id: 0,
        kind: DeviceKind::Memory,
        tier: StorageTier::Warm,
        capacity_bytes: 1024 * 1024 * 256,
        peak_read_bw_mbps: 10_000,
        peak_write_bw_mbps: 10_000,
        read_latency_ns_p50: 200,
        write_latency_ns_p50: 200,
        used_bytes: 1024 * 1024 * 50,
        recent_rps: 1234,
    };
    let encoded = entry.encode();
    let decoded = DeviceProfileEntry::decode(&encoded).unwrap();
    assert_eq!(decoded.node_id, 1);
    assert_eq!(decoded.device_id, 0);
    assert_eq!(decoded.kind, DeviceKind::Memory);
    assert_eq!(decoded.tier, StorageTier::Warm);
    assert_eq!(decoded.capacity_bytes, 1024 * 1024 * 256);
    assert_eq!(decoded.peak_read_bw_mbps, 10_000);
    assert_eq!(decoded.read_latency_ns_p50, 200);
    assert_eq!(decoded.used_bytes, 1024 * 1024 * 50);
    assert_eq!(decoded.recent_rps, 1234);
}

#[test]
fn test_device_profile_publish_roundtrip() {
    let msg = ControlMsg::DeviceProfilePublish(DeviceProfilePublishPayload {
        entries: vec![
            DeviceProfileEntry {
                node_id: 1,
                device_id: 0,
                kind: DeviceKind::Memory,
                tier: StorageTier::Warm,
                capacity_bytes: 1024 * 1024 * 512,
                peak_read_bw_mbps: 10_000,
                peak_write_bw_mbps: 10_000,
                read_latency_ns_p50: 200,
                write_latency_ns_p50: 200,
                used_bytes: 0,
                recent_rps: 0,
            },
            DeviceProfileEntry {
                node_id: 1,
                device_id: 1,
                kind: DeviceKind::Npu,
                tier: StorageTier::Hot,
                capacity_bytes: 1024 * 1024 * 256,
                peak_read_bw_mbps: 50_000,
                peak_write_bw_mbps: 50_000,
                read_latency_ns_p50: 50,
                write_latency_ns_p50: 50,
                used_bytes: 1024 * 1024 * 10,
                recent_rps: 500,
            },
        ],
    });
    let encoded = msg.encode();
    let decoded = ControlMsg::decode(&encoded).unwrap();
    if let ControlMsg::DeviceProfilePublish(p) = decoded {
        assert_eq!(p.entries.len(), 2);
        assert_eq!(p.entries[0].kind, DeviceKind::Memory);
        assert_eq!(p.entries[0].tier, StorageTier::Warm);
        assert_eq!(p.entries[1].kind, DeviceKind::Npu);
        assert_eq!(p.entries[1].tier, StorageTier::Hot);
        assert_eq!(p.entries[1].peak_read_bw_mbps, 50_000);
    } else {
        panic!("expected DeviceProfilePublish");
    }
}

#[test]
fn test_alloc_req_roundtrip() {
    let msg = ControlMsg::AllocReq(AllocReqPayload {
        region_id: 42,
        size: 4096,
        access: AccessPattern::ReadHeavy,
        latency_class: LatencyClass::Critical,
        capacity_class: CapacityClass::Small,
        pin_kind: 1,
        expected_readers: 5,
        requester_node_id: 3,
    });
    let encoded = msg.encode();
    let decoded = ControlMsg::decode(&encoded).unwrap();
    if let ControlMsg::AllocReq(p) = decoded {
        assert_eq!(p.region_id, 42);
        assert_eq!(p.size, 4096);
        assert_eq!(p.access, AccessPattern::ReadHeavy);
        assert_eq!(p.latency_class, LatencyClass::Critical);
        assert_eq!(p.capacity_class, CapacityClass::Small);
        assert_eq!(p.pin_kind, 1);
        assert_eq!(p.expected_readers, 5);
        assert_eq!(p.requester_node_id, 3);
    } else {
        panic!("expected AllocReq");
    }
}

#[test]
fn test_alloc_resp_roundtrip() {
    let msg = ControlMsg::AllocResp(AllocRespPayload {
        region_id: 42,
        ub_va: UbVa::new(RegionId(42), 0).0,
        home_node_id: 1,
        device_id: 0,
        mr_handle: 5,
        base_offset: 1024,
        error_code: 0,
    });
    let encoded = msg.encode();
    let decoded = ControlMsg::decode(&encoded).unwrap();
    if let ControlMsg::AllocResp(p) = decoded {
        assert_eq!(p.region_id, 42);
        assert_eq!(p.home_node_id, 1);
        assert_eq!(p.mr_handle, 5);
        assert_eq!(p.base_offset, 1024);
        assert_eq!(p.error_code, 0);
    } else {
        panic!("expected AllocResp");
    }
}

#[test]
fn test_region_create_roundtrip() {
    let msg = ControlMsg::RegionCreate(RegionCreatePayload {
        region_id: 100,
        size: 8192,
        device_kind: DeviceKind::Memory,
    });
    let encoded = msg.encode();
    let decoded = ControlMsg::decode(&encoded).unwrap();
    if let ControlMsg::RegionCreate(p) = decoded {
        assert_eq!(p.region_id, 100);
        assert_eq!(p.size, 8192);
        assert_eq!(p.device_kind, DeviceKind::Memory);
    } else {
        panic!("expected RegionCreate");
    }
}

#[test]
fn test_region_create_ok_roundtrip() {
    let msg = ControlMsg::RegionCreateOk(RegionCreateOkPayload {
        region_id: 100,
        mr_handle: 7,
        base_offset: 2048,
        device_id: 0,
    });
    let encoded = msg.encode();
    let decoded = ControlMsg::decode(&encoded).unwrap();
    if let ControlMsg::RegionCreateOk(p) = decoded {
        assert_eq!(p.region_id, 100);
        assert_eq!(p.mr_handle, 7);
        assert_eq!(p.base_offset, 2048);
        assert_eq!(p.device_id, 0);
    } else {
        panic!("expected RegionCreateOk");
    }
}

#[test]
fn test_region_delete_roundtrip() {
    let msg = ControlMsg::RegionDelete(RegionDeletePayload {
        region_id: 100,
    });
    let encoded = msg.encode();
    let decoded = ControlMsg::decode(&encoded).unwrap();
    if let ControlMsg::RegionDelete(p) = decoded {
        assert_eq!(p.region_id, 100);
    } else {
        panic!("expected RegionDelete");
    }
}

#[test]
fn test_fetch_roundtrip() {
    let msg = ControlMsg::Fetch(FetchPayload {
        region_id: 42,
        offset: 1024,
        len: 4096,
        requester_node_id: 3,
    });
    let encoded = msg.encode();
    let decoded = ControlMsg::decode(&encoded).unwrap();
    if let ControlMsg::Fetch(p) = decoded {
        assert_eq!(p.region_id, 42);
        assert_eq!(p.offset, 1024);
        assert_eq!(p.len, 4096);
        assert_eq!(p.requester_node_id, 3);
    } else {
        panic!("expected Fetch");
    }
}

#[test]
fn test_fetch_resp_roundtrip() {
    let msg = ControlMsg::FetchResp(FetchRespPayload {
        region_id: 42,
        epoch: 7,
        payload: vec![0xAB, 0xCD, 0xEF, 0x01, 0x23],
        error_code: 0,
    });
    let encoded = msg.encode();
    let decoded = ControlMsg::decode(&encoded).unwrap();
    if let ControlMsg::FetchResp(p) = decoded {
        assert_eq!(p.region_id, 42);
        assert_eq!(p.epoch, 7);
        assert_eq!(p.payload, vec![0xAB, 0xCD, 0xEF, 0x01, 0x23]);
        assert_eq!(p.error_code, 0);
    } else {
        panic!("expected FetchResp");
    }
}

#[test]
fn test_write_lock_req_roundtrip() {
    let msg = ControlMsg::WriteLockReq(WriteLockReqPayload {
        region_id: 42,
        writer_node_id: 3,
    });
    let encoded = msg.encode();
    let decoded = ControlMsg::decode(&encoded).unwrap();
    if let ControlMsg::WriteLockReq(p) = decoded {
        assert_eq!(p.region_id, 42);
        assert_eq!(p.writer_node_id, 3);
    } else {
        panic!("expected WriteLockReq");
    }
}

#[test]
fn test_write_lock_granted_roundtrip() {
    let msg = ControlMsg::WriteLockGranted(WriteLockGrantedPayload {
        region_id: 42,
        epoch: 7,
        error_code: 0,
    });
    let encoded = msg.encode();
    let decoded = ControlMsg::decode(&encoded).unwrap();
    if let ControlMsg::WriteLockGranted(p) = decoded {
        assert_eq!(p.region_id, 42);
        assert_eq!(p.epoch, 7);
        assert_eq!(p.error_code, 0);
    } else {
        panic!("expected WriteLockGranted");
    }
}

#[test]
fn test_write_unlock_roundtrip() {
    let msg = ControlMsg::WriteUnlock(WriteUnlockPayload {
        region_id: 42,
        writer_node_id: 3,
    });
    let encoded = msg.encode();
    let decoded = ControlMsg::decode(&encoded).unwrap();
    if let ControlMsg::WriteUnlock(p) = decoded {
        assert_eq!(p.region_id, 42);
        assert_eq!(p.writer_node_id, 3);
    } else {
        panic!("expected WriteUnlock");
    }
}

#[test]
fn test_invalidate_roundtrip() {
    let msg = ControlMsg::Invalidate(InvalidatePayload {
        region_id: 42,
        new_epoch: 8,
    });
    let encoded = msg.encode();
    let decoded = ControlMsg::decode(&encoded).unwrap();
    if let ControlMsg::Invalidate(p) = decoded {
        assert_eq!(p.region_id, 42);
        assert_eq!(p.new_epoch, 8);
    } else {
        panic!("expected Invalidate");
    }
}

#[test]
fn test_invalidate_ack_roundtrip() {
    let msg = ControlMsg::InvalidateAck(InvalidateAckPayload {
        region_id: 42,
    });
    let encoded = msg.encode();
    let decoded = ControlMsg::decode(&encoded).unwrap();
    if let ControlMsg::InvalidateAck(p) = decoded {
        assert_eq!(p.region_id, 42);
    } else {
        panic!("expected InvalidateAck");
    }
}
