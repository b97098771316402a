use unibus::addr::UbAddr;
use unibus::codec::decode_frame;
use unibus::config::JettyConfig;
use unibus::dataplane::{
    build_data_frame_with_flags, finish_cas, finish_faa, finish_read, status_to_error,
    DataPlaneEngine, Incoming, VerbResponse, MAX_PAYLOAD_SIZE,
};
use unibus::error::UbError;
use unibus::frame::{ExtFlags, FrameFlags};
use unibus::jetty::{Jetty, JettyTable};
use unibus::mr::{MrCacheEntry, MrCacheTable, MrTable};
use unibus::requests::register_region;
use unibus::types::{DeviceKind, JettyAddr, JettyHandle, MrPerms, Verb};

fn cache_of(addr: UbAddr, handle: u32, len: u64) -> MrCacheTable {
    let mut cache = MrCacheTable::new();
    cache.insert(MrCacheEntry {
        remote_mr_handle: handle,
        owner_node: 1,
        base_ub_addr: addr,
        len,
        perms: MrPerms::read(),
        device_kind: DeviceKind::Memory,
    });
    cache
}

fn internal<T>(r: Result<T, UbError>) -> String {
    match r {
        Err(UbError::Internal(m)) => m,
        _ => panic!("expected an internal error"),
    }
}

/// Sends one read from node 2 to node 1 and returns the reply.
fn read_remote(mrs: &mut MrTable, addr: UbAddr, known_len: u64, len: u32) -> (DataPlaneEngine, Vec<u8>) {
    let handle = mrs.list().first().map(|e| e.handle).unwrap_or(1);
    let cache = cache_of(addr, handle, known_len);
    let mut jetties = JettyTable::new(1, JettyConfig::default());
    let mut a = DataPlaneEngine::new(1);
    let mut b = DataPlaneEngine::new(2);
    b.connect_peer(1);
    let request = b.ub_read_remote(&cache, addr, len).unwrap();
    match a.handle_incoming_frame(&request.frame, mrs, &mut jetties) {
        Incoming::Reply(reply) => (b, reply),
        _ => panic!("expected a reply"),
    }
}

fn read_back(mrs: &mut MrTable, addr: UbAddr, known_len: u64, len: u32) -> Vec<u8> {
    let (mut b, reply) = read_remote(mrs, addr, known_len, len);
    let mut jetties = JettyTable::new(2, JettyConfig::default());
    match b.handle_incoming_frame(&reply, &mut MrTable::new(1, 2), &mut jetties) {
        Incoming::Completed { response, .. } => finish_read(response).unwrap(),
        _ => panic!("expected the request to be completed"),
    }
}

/// The status with which a read is refused.
fn refusal(mrs: &mut MrTable, addr: UbAddr, len: u32) -> u32 {
    let (_, reply) = read_remote(mrs, addr, 8, len);
    let (header, ext, payload) = decode_frame(&reply).unwrap();
    assert_eq!((header.src_node, header.dst_node), (1, 2));
    let ext = ext.unwrap();
    assert_eq!(ext.verb, Verb::ReadReq);
    assert!(ext.ext_flags.contains(ExtFlags::err_resp()));
    u32::from_be_bytes(payload.try_into().unwrap())
}

#[test]
fn what_was_written_is_read_from_afar() {
    let mut mrs = MrTable::new(1, 1);
    let perms = MrPerms::read() | MrPerms::write();
    let (addr, handle) = register_region(&mut mrs, false, 64, perms).unwrap();
    let cache = cache_of(addr, handle.0, 64);
    let mut b = DataPlaneEngine::new(2);
    b.connect_peer(1);
    let at = addr.with_offset(addr.offset() + 3);
    let out = b.ub_write_remote(&cache, at, &[4, 5, 6]).unwrap();
    let mut a = DataPlaneEngine::new(1);
    let mut jetties = JettyTable::new(1, JettyConfig::default());
    a.handle_incoming_frame(&out.frame, &mut mrs, &mut jetties);
    assert_eq!(read_back(&mut mrs, at, 61, 3), vec![4, 5, 6]);
    assert_eq!(read_back(&mut mrs, addr, 64, 4), vec![0, 0, 0, 4]);
}

#[test]
fn refused_requests_are_answered_with_their_status() {
    let mut mrs = MrTable::new(1, 1);
    let (addr, _) = register_region(&mut mrs, false, 8, MrPerms::write()).unwrap();
    assert_eq!(refusal(&mut mrs, addr, 4), 2);
    let mut mrs = MrTable::new(1, 1);
    let (addr, _) = register_region(&mut mrs, false, 8, MrPerms::read()).unwrap();
    assert_eq!(refusal(&mut mrs, addr, 9), 1);
    let mut nothing = MrTable::new(1, 1);
    assert_eq!(refusal(&mut nothing, addr, 4), 1);
}

#[test]
fn requests_need_a_known_region_and_a_connected_peer() {
    let addr = UbAddr::new(1, 1, 0, 0, 0);
    let cache = cache_of(addr, 1, 64);
    let mut b = DataPlaneEngine::new(2);
    let jetty = JettyAddr { node_id: 1, jetty_id: 1 };
    assert!(matches!(b.ub_write_remote(&cache, addr, &[1]), Err(UbError::LinkDown)));
    assert!(matches!(b.ub_send_remote(1, jetty, &[1]), Err(UbError::LinkDown)));
    b.connect_peer(1);
    let beyond = addr.with_offset(64);
    assert!(matches!(b.ub_write_remote(&cache, beyond, &[1]), Err(UbError::AddrInvalid)));
    assert!(matches!(b.ub_read_remote(&cache, beyond, 1), Err(UbError::AddrInvalid)));
    assert!(matches!(b.ub_atomic_cas_remote(&cache, beyond, 0, 1), Err(UbError::AddrInvalid)));
    assert!(matches!(b.ub_atomic_faa_remote(&cache, beyond, 1), Err(UbError::AddrInvalid)));
    assert!(matches!(
        b.ub_write_imm_remote(&cache, beyond, &[1], 0, 1, jetty),
        Err(UbError::AddrInvalid)
    ));
    let large = vec![0u8; MAX_PAYLOAD_SIZE + 1];
    assert!(matches!(b.ub_write_remote(&cache, addr, &large), Err(UbError::PayloadTooLarge)));
    assert!(matches!(b.ub_send_remote(1, jetty, &large), Err(UbError::PayloadTooLarge)));
    assert!(b.ub_send_remote(1, jetty, &large[1..]).is_ok());
    b.disconnect_peer(1);
    assert!(matches!(b.ub_write_remote(&cache, addr, &[1]), Err(UbError::LinkDown)));
}

#[test]
fn requests_have_numbers_of_their_own_and_time_out() {
    let addr = UbAddr::new(1, 1, 0, 0, 0);
    let cache = cache_of(addr, 1, 64);
    let mut b = DataPlaneEngine::new(2);
    b.connect_peer(1);
    let first = b.ub_read_remote(&cache, addr, 1).unwrap();
    let second = b.ub_atomic_faa_remote(&cache, addr, 1).unwrap();
    assert_ne!(first.opaque, second.opaque);
    assert!(matches!(b.request_timed_out(first.opaque), UbError::Timeout));
    // A late response finds nobody waiting
    let late = build_data_frame_with_flags(
        1, 2, Verb::ReadResp, 1, addr, first.opaque, &[1], ExtFlags::empty(),
    );
    let mut mrs = MrTable::new(1, 2);
    let mut jetties = JettyTable::new(2, JettyConfig::default());
    assert!(matches!(b.handle_incoming_frame(&late, &mut mrs, &mut jetties), Incoming::Nothing));
    assert!(matches!(b.handle_incoming_frame(&[0; 3], &mut mrs, &mut jetties), Incoming::Nothing));
}

#[test]
fn error_frames_say_so() {
    let frame = build_data_frame_with_flags(
        1, 2, Verb::ReadResp, 1, UbAddr::new(0, 0, 0, 0, 0), 3, &[0, 0, 0, 2], ExtFlags::err_resp(),
    );
    let (h, ext, payload) = decode_frame(&frame).unwrap();
    assert!(!h.flags.contains(FrameFlags::has_imm()));
    assert!(ext.unwrap().ext_flags.contains(ExtFlags::err_resp()));
    assert_eq!(payload, &[0, 0, 0, 2]);
}

#[test]
fn responses_become_results() {
    let ok = |data: Vec<u8>| VerbResponse { status: 0, data };
    let bad = |status: u32| VerbResponse { status, data: Vec::new() };
    assert_eq!(finish_read(ok(vec![1, 2])).unwrap(), vec![1, 2]);
    assert_eq!(finish_cas(ok(vec![0, 0, 0, 0, 0, 0, 1, 2])).unwrap(), 258);
    assert_eq!(finish_faa(ok(vec![0, 0, 0, 0, 0, 0, 0, 7])).unwrap(), 7);
    assert!(matches!(finish_read(bad(2)), Err(UbError::PermDenied)));
    assert!(matches!(finish_cas(bad(3)), Err(UbError::Alignment)));
    assert!(matches!(finish_faa(bad(1)), Err(UbError::AddrInvalid)));
    assert_ne!(internal(finish_cas(ok(vec![1]))), "");
    assert_ne!(internal(finish_faa(ok(vec![1]))), "");
    for (status, name) in [(4, "link down"), (5, "no resources"), (6, "timeout")] {
        assert_eq!(status_to_error(status).message(), name);
    }
    assert!(matches!(status_to_error(77), UbError::Internal(_)));
}

#[test]
fn queues_are_served_in_order_and_closed_once() {
    let config = JettyConfig { jfs_depth: 2, jfr_depth: 2, jfc_depth: 3, jfc_high_watermark: 2 };
    let mut jetty = Jetty::new(JettyHandle(9), 4, &config);
    assert_eq!(jetty.addr(), JettyAddr { node_id: 4, jetty_id: 9 });
    jetty.post_recv(vec![0; 4], 1).unwrap();
    jetty.post_recv(vec![0; 4], 2).unwrap();
    assert_eq!(jetty.cqe_count(), 0);
    jetty.close();
    jetty.close();
    assert!(jetty.is_closed());
    assert_eq!(jetty.cqe_count(), 2);
    assert_eq!(jetty.poll_cqe().unwrap().wr_id, 1);
    assert_eq!(jetty.poll_cqe().unwrap().wr_id, 2);
    // A closed jetty still takes buffers
    assert!(jetty.post_recv(vec![0; 4], 3).is_ok());
}

#[test]
fn a_message_without_a_buffer_is_dropped() {
    let mut b = DataPlaneEngine::new(2);
    b.connect_peer(1);
    let mut a = DataPlaneEngine::new(1);
    let mut mrs = MrTable::new(1, 1);
    let mut jetties = JettyTable::new(1, JettyConfig::default());
    let handle = jetties.create().unwrap();
    let dst = JettyAddr { node_id: 1, jetty_id: handle.0 };
    let out = b.ub_send_remote(1, dst, &[1, 2, 3]).unwrap();
    a.handle_incoming_frame(&out.frame, &mut mrs, &mut jetties);
    assert!(jetties.poll_cqe(handle.0).is_none());
}
