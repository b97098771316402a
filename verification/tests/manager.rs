use bytes::{BufMut, BytesMut};
use unibus::addr::UbAddr;
use unibus::codec::encode_frame;
use unibus::config::{FlowConfig, TransportConfig};
use unibus::error::UbError;
use unibus::frame::{
    AckPayload, DataExtHeader, ExtFlags, FrameFlags, FrameHeader, FrameType, MAGIC, VERSION,
};
use unibus::manager::{build_ack_frame, build_credit_frame, TransportManager};
use unibus::types::Verb;

fn make_config() -> (TransportConfig, FlowConfig) {
    (
        TransportConfig {
            rto_ms: 200,
            max_retries: 8,
            sack_bitmap_bits: 256,
            reassembly_budget_bytes: 67108864,
        },
        FlowConfig {
            initial_credits: 64,
        },
    )
}

#[test]
fn test_create_session_and_find() {
    let (config, flow_config) = make_config();
    let mut mgr = TransportManager::new(1, config, flow_config);

    mgr.create_session(2, 100, 64).unwrap();

    assert!(mgr.session(2, 100).is_some());
}

#[test]
fn test_send_assigns_seq() {
    let (config, flow_config) = make_config();
    let mut mgr = TransportManager::new(1, config, flow_config);

    mgr.create_session(2, 100, 64).unwrap();

    // Register a peer sender
    mgr.register_peer_sender(2);

    let mut frame = vec![0u8; 64];
    // Set up minimal frame header for patching
    frame[0..4].copy_from_slice(&MAGIC.to_be_bytes());

    let seq = mgr.send(2, &mut frame, false, 0, 0).unwrap();
    assert_eq!(seq, 1);
}

#[test]
fn test_notify_peer_down_kills_sessions() {
    let (config, flow_config) = make_config();
    let mut mgr = TransportManager::new(1, config, flow_config);

    mgr.create_session(2, 100, 64).unwrap();
    mgr.register_peer_sender(2);

    let entries = mgr.notify_peer_down(2);
    // No pending retransmits, so empty
    assert!(entries.is_empty());

    // Session should be removed
    assert!(mgr.session(2, 100).is_none());
}

#[test]
fn test_credit_exhaustion() {
    let (config, flow_config) = make_config();
    let mut mgr = TransportManager::new(1, config, flow_config);

    // Only 2 credits
    mgr.create_session(2, 100, 2).unwrap();
    mgr.register_peer_sender(2);

    let mut frame = vec![0u8; 64];
    frame[0..4].copy_from_slice(&MAGIC.to_be_bytes());

    mgr.send(2, &mut frame, false, 0, 0).unwrap();
    mgr.send(2, &mut frame, false, 1, 0).unwrap();

    // Third send should fail
    let result = mgr.send(2, &mut frame, false, 2, 0);
    assert!(matches!(result, Err(UbError::NoResources)));
}

#[test]
fn test_handle_data_frame_delivers() {
    let (config, flow_config) = make_config();
    let mut mgr = TransportManager::new(2, config, flow_config);

    mgr.create_session(1, 100, 64).unwrap();

    // Build a DATA frame
    let header = FrameHeader {
        magic: MAGIC,
        version: VERSION,
        frame_type: FrameType::Data,
        flags: FrameFlags::ack_req(),
        src_node: 1,
        dst_node: 2,
        reserved: 0,
        stream_seq: 1,
        payload_len: 4,
        header_crc: 0,
    };
    let ext = DataExtHeader {
        verb: Verb::Write,
        ext_flags: ExtFlags::empty(),
        mr_handle: 1,
        jetty_src: 0,
        jetty_dst: 0,
        opaque: 0,
        frag_id: 0,
        frag_index: 0,
        frag_total: 1,
        ub_addr: UbAddr::new(1, 1, 0, 0, 0),
        imm: None,
    };
    let payload = &[1, 2, 3, 4];
    let frame = encode_frame(&header, Some(&ext), payload);

    // Should receive the inbound frame
    let inbound = mgr.handle_incoming(&frame, 0).delivered.unwrap();
    assert_eq!(inbound.seq, 1);
    assert_eq!(inbound.payload, vec![1, 2, 3, 4]);
}

#[test]
fn test_handle_ack_clears_retransmit() {
    let (config, flow_config) = make_config();
    let mut mgr = TransportManager::new(1, config, flow_config);

    mgr.create_session(2, 100, 64).unwrap();
    mgr.register_peer_sender(2);

    // Send a fire-and-forget frame to populate retransmit queue
    let mut frame = vec![0u8; 64];
    frame[0..4].copy_from_slice(&MAGIC.to_be_bytes());
    mgr.send(2, &mut frame, true, 0, 0).unwrap();

    // Verify entry in retransmit queue
    let s = mgr.session(2, 100).unwrap();
    assert_eq!(s.pending_count(), 1);

    // Build and handle ACK
    let ack_header = FrameHeader {
        magic: MAGIC,
        version: VERSION,
        frame_type: FrameType::Ack,
        flags: FrameFlags::empty(),
        src_node: 2,
        dst_node: 1,
        reserved: 0,
        stream_seq: 0,
        payload_len: 0,
        header_crc: 0,
    };
    let mut ack_payload = BytesMut::with_capacity(16);
    ack_payload.put_u64(1); // ack_seq = 1
    ack_payload.put_u32(1); // credit_grant = 1
    ack_payload.put_u32(0); // reserved
    let ack_frame = encode_frame(&ack_header, None, &ack_payload);

    mgr.handle_incoming(&ack_frame, 0);

    // Retransmit queue should be cleared for fire-and-forget
    let s = mgr.session(2, 100).unwrap();
    assert_eq!(s.pending_count(), 0);
}

#[test]
fn test_handle_ack_keeps_request_response() {
    let (config, flow_config) = make_config();
    let mut mgr = TransportManager::new(1, config, flow_config);

    mgr.create_session(2, 100, 64).unwrap();
    mgr.register_peer_sender(2);

    // Send a request-response frame (is_fire_and_forget=false)
    let mut frame = vec![0u8; 64];
    frame[0..4].copy_from_slice(&MAGIC.to_be_bytes());
    mgr.send(2, &mut frame, false, 42, 0).unwrap();

    // ACK should NOT remove the request-response entry
    let ack_header = FrameHeader {
        magic: MAGIC,
        version: VERSION,
        frame_type: FrameType::Ack,
        flags: FrameFlags::empty(),
        src_node: 2,
        dst_node: 1,
        reserved: 0,
        stream_seq: 0,
        payload_len: 0,
        header_crc: 0,
    };
    let mut ack_payload = BytesMut::with_capacity(16);
    ack_payload.put_u64(1);
    ack_payload.put_u32(1);
    ack_payload.put_u32(0);
    let ack_frame = encode_frame(&ack_header, None, &ack_payload);

    mgr.handle_incoming(&ack_frame, 0);

    // Entry should still be in retransmit queue
    let s = mgr.session(2, 100).unwrap();
    assert_eq!(s.pending_count(), 1);

    // complete_request should remove it
    mgr.complete_request(2, 42);
    let s = mgr.session(2, 100).unwrap();
    assert_eq!(s.pending_count(), 0);
}

#[test]
fn test_mark_executed() {
    let (config, flow_config) = make_config();
    let mut mgr = TransportManager::new(1, config, flow_config);

    mgr.create_session(2, 100, 64).unwrap();

    assert!(!mgr.is_executed(2, 1));
    mgr.mark_executed(2, 1);
    assert!(mgr.is_executed(2, 1));
}

#[test]
fn test_grant_credits() {
    let (config, flow_config) = make_config();
    let mut mgr = TransportManager::new(1, config, flow_config);

    mgr.create_session(2, 100, 2).unwrap();

    let s = mgr.session(2, 100).unwrap();
    assert_eq!(s.available_credits, 2);

    mgr.grant_credits(2, 10);

    let s = mgr.session(2, 100).unwrap();
    // Credits may have been consumed by the CREDIT frame sending
    assert!(s.available_credits >= 2);
}

#[test]
fn test_build_ack_frame() {
    let ack = AckPayload {
        ack_seq: 5,
        credit_grant: 3,
        reserved: 0,
        sack_bitmap: None,
    };
    let frame = build_ack_frame(1, 2, &ack);
    assert!(frame.len() > 32); // At least header + payload
}

#[test]
fn test_build_credit_frame() {
    let frame = build_credit_frame(1, 2, 10);
    assert!(frame.len() > 32);
}
