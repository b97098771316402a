use unibus::addr::UbAddr;
use unibus::codec::decode_frame;
use unibus::config::JettyConfig;
use unibus::dataplane::{
    build_data_frame, build_data_frame_ex, finish_cas, finish_faa, finish_read, status_to_error,
    DataPlaneEngine, Incoming, Request, VerbResponse,
};
use unibus::device::{AnyDevice, MemoryDevice};
use unibus::error::UbError;
use unibus::frame::{ExtFlags, FrameFlags, OutFrame};
use unibus::jetty::JettyTable;
use unibus::mr::{MrCacheEntry, MrCacheTable, MrTable};
use unibus::types::{DeviceKind, JettyAddr, MrHandle, MrPerms, Verb};

fn test_jetty_config() -> JettyConfig {
    JettyConfig {
        jfs_depth: 16,
        jfr_depth: 16,
        jfc_depth: 16,
        jfc_high_watermark: 12,
    }
}

/// A node with what its data plane works on.
struct Node {
    engine: DataPlaneEngine,
    mrs: MrTable,
    cache: MrCacheTable,
    jetties: JettyTable,
}

impl Node {
    fn new(node_id: u16) -> Self {
        Node {
            engine: DataPlaneEngine::new(node_id),
            mrs: MrTable::new(1, node_id),
            cache: MrCacheTable::new(),
            jetties: JettyTable::new(node_id, test_jetty_config()),
        }
    }

    /// Takes in a frame that arrived.
    fn take(&mut self, frame: &[u8]) -> Incoming {
        self.engine.handle_incoming_frame(frame, &mut self.mrs, &mut self.jetties)
    }

    /// The bytes at the start of a region.
    fn bytes(&self, handle: MrHandle, len: usize) -> Vec<u8> {
        let entry = self.mrs.lookup(handle.0).unwrap();
        let mut buf = vec![0u8; len];
        self.mrs.device_read(entry.device, entry.base_offset, &mut buf).unwrap();
        buf
    }
}

/// Node 1 with a region of `len` bytes that node 2 knows of and is connected to.
fn pair(len: u64) -> (Node, Node, UbAddr, MrHandle) {
    pair_with(len, MrPerms::read() | MrPerms::write() | MrPerms::atomic())
}

fn pair_with(len: u64, perms: MrPerms) -> (Node, Node, UbAddr, MrHandle) {
    let mut a = Node::new(1);
    let mut b = Node::new(2);
    let dev = a.mrs.add_device(AnyDevice::Memory(MemoryDevice::new(4096)));
    let (addr, handle) = a.mrs.register(dev, len, perms).unwrap();
    b.cache.insert(MrCacheEntry {
        remote_mr_handle: handle.0,
        owner_node: 1,
        base_ub_addr: addr,
        len,
        perms,
        device_kind: DeviceKind::Memory,
    });
    b.engine.connect_peer(1);
    (a, b, addr, handle)
}

/// Carries a frame of node 2 to node 1.
fn deliver(a: &mut Node, out: OutFrame) {
    assert_eq!(out.dst, 1);
    assert!(matches!(a.take(&out.frame), Incoming::Nothing));
}

/// Carries a request of node 2 to node 1 and the reply back.
fn exchange(a: &mut Node, b: &mut Node, request: Request) -> VerbResponse {
    assert_eq!(request.dst, 1);
    let Incoming::Reply(reply) = a.take(&request.frame) else {
        panic!("expected a reply");
    };
    match b.take(&reply) {
        Incoming::Completed { opaque, response } => {
            assert_eq!(opaque, request.opaque);
            response
        }
        _ => panic!("expected the request to be completed"),
    }
}

fn cas(a: &mut Node, b: &mut Node, addr: UbAddr, expect: u64, new: u64) -> u64 {
    let request = b.engine.ub_atomic_cas_remote(&b.cache, addr, expect, new).unwrap();
    finish_cas(exchange(a, b, request)).unwrap()
}

#[test]
fn test_build_data_frame() {
    let frame = build_data_frame(
        1, 2, Verb::Write, 5, UbAddr::new(1, 2, 0, 0, 0), 42, &[1, 2, 3, 4],
    );
    let (header, ext, payload) = decode_frame(&frame).unwrap();
    assert_eq!(header.src_node, 1);
    assert_eq!(header.dst_node, 2);
    let ext = ext.unwrap();
    assert_eq!(ext.verb, Verb::Write);
    assert_eq!(ext.mr_handle, 5);
    assert_eq!(ext.opaque, 42);
    assert_eq!(payload, &[1, 2, 3, 4]);
}

#[test]
fn test_status_to_error() {
    assert!(matches!(status_to_error(1), UbError::AddrInvalid));
    assert!(matches!(status_to_error(2), UbError::PermDenied));
    assert!(matches!(status_to_error(3), UbError::Alignment));
}

#[test]
fn test_dataplane_write_and_read() {
    let (mut a, b, addr_a, handle_a) = pair(1024);

    let write_data = vec![0xDE, 0xAD, 0xBE, 0xEF];
    let out = b.engine.ub_write_remote(&b.cache, addr_a, &write_data).unwrap();
    deliver(&mut a, out);

    assert_eq!(a.bytes(handle_a, 4), vec![0xDE, 0xAD, 0xBE, 0xEF]);
}

/// Atomics from one node on the memory of another.
#[test]
fn test_dataplane_atomic_cas_and_faa() {
    let (mut a, mut b, addr_a, _handle_a) = pair(4096);

    // Initialize to 0
    let out = b.engine.ub_write_remote(&b.cache, addr_a, &0u64.to_ne_bytes()).unwrap();
    deliver(&mut a, out);

    // CAS: expect 0, new 42 → should succeed, old=0
    let old = cas(&mut a, &mut b, addr_a, 0, 42);
    assert_eq!(old, 0, "CAS should return old_value=0");

    // CAS: expect 0, new 99 → should fail, old=42
    let old = cas(&mut a, &mut b, addr_a, 0, 99);
    assert_eq!(old, 42, "CAS retry should return old_value=42");

    // FAA: add 1 → returns 42, value becomes 43
    let request = b.engine.ub_atomic_faa_remote(&b.cache, addr_a, 1).unwrap();
    let old = finish_faa(exchange(&mut a, &mut b, request)).unwrap();
    assert_eq!(old, 42, "FAA should return old_value=42");
}

/// Eight requests race to swap 0 for their own number: exactly one finds 0.
#[test]
fn test_concurrent_cas_serialization() {
    let (mut a, mut b, addr_a, _handle_a) = pair(4096);

    // Initialize to 0
    let out = b.engine.ub_write_remote(&b.cache, addr_a, &0u64.to_ne_bytes()).unwrap();
    deliver(&mut a, out);

    // All eight are on their way before the first is answered
    let mut requests = Vec::new();
    for task_id in 1u64..=8 {
        requests.push(b.engine.ub_atomic_cas_remote(&b.cache, addr_a, 0, task_id).unwrap());
    }

    let mut success_count = 0;
    for request in requests.into_iter().rev() {
        let old = finish_cas(exchange(&mut a, &mut b, request)).unwrap();
        if old == 0 {
            success_count += 1;
        }
    }

    // Verify the final value is one of the task IDs
    let request = b.engine.ub_read_remote(&b.cache, addr_a, 8).unwrap();
    let read_data = finish_read(exchange(&mut a, &mut b, request)).unwrap();
    let final_value = u64::from_ne_bytes(read_data[..8].try_into().unwrap());
    assert!(
        (1..=8).contains(&final_value),
        "Final value should be a task ID, got {final_value}"
    );
    let winner_id = final_value;

    assert!(
        success_count >= 1,
        "At least one CAS should succeed (got {success_count})"
    );
    assert!(
        success_count <= 1,
        "At most one CAS should succeed with old=0 (got {success_count}, winner={winner_id})"
    );
}

#[test]
fn test_build_data_frame_ex_with_imm() {
    let frame = build_data_frame_ex(
        1, 2, Verb::Send, 0, UbAddr::new(0, 0, 0, 0, 0), 0,
        10, 20, Some(42), &[1, 2, 3],
    );
    let (header, ext, payload) = decode_frame(&frame).unwrap();
    assert_eq!(header.src_node, 1);
    assert!(header.flags.contains(FrameFlags::has_imm()));
    let ext = ext.unwrap();
    assert_eq!(ext.verb, Verb::Send);
    assert!(ext.ext_flags.contains(ExtFlags::has_imm()));
    assert_eq!(ext.jetty_src, 10);
    assert_eq!(ext.jetty_dst, 20);
    assert_eq!(ext.imm, Some(42));
    assert_eq!(payload, &[1, 2, 3]);
}

#[test]
fn test_dataplane_send_and_recv() {
    let (mut a, b, _, _) = pair(1024);

    // Create Jetty on node A and post a recv buffer on it
    let jetty_handle_a = a.jetties.create().unwrap();
    a.jetties.post_recv(jetty_handle_a.0, vec![0u8; 256], 100).unwrap();

    // Send from node B to node A's Jetty
    let dst_jetty = JettyAddr { node_id: 1, jetty_id: jetty_handle_a.0 };
    let out = b.engine.ub_send_remote(1, dst_jetty, &[72, 101, 108, 108, 111]).unwrap();
    deliver(&mut a, out);

    // Poll CQE on node A
    let cqe = a.jetties.poll_cqe(jetty_handle_a.0);
    assert!(cqe.is_some(), "Should have a CQE from the Send");
    let cqe = cqe.unwrap();
    assert_eq!(cqe.wr_id, 100);
    assert_eq!(cqe.byte_len, 5);
    assert_eq!(cqe.verb, Verb::Send);
    assert_eq!(cqe.imm, None);
}

#[test]
fn test_dataplane_send_with_imm() {
    let (mut a, b, _, _) = pair(1024);

    let jetty_handle_a = a.jetties.create().unwrap();
    a.jetties.post_recv(jetty_handle_a.0, vec![0u8; 256], 200).unwrap();

    let dst_jetty = JettyAddr { node_id: 1, jetty_id: jetty_handle_a.0 };
    let out = b.engine.ub_send_with_imm_remote(1, dst_jetty, &[1, 2, 3], 42).unwrap();
    deliver(&mut a, out);

    let cqe = a.jetties.poll_cqe(jetty_handle_a.0).unwrap();
    assert_eq!(cqe.wr_id, 200);
    assert_eq!(cqe.imm, Some(42));
    assert_eq!(cqe.byte_len, 3);
}

#[test]
fn test_dataplane_write_imm() {
    let (mut a, b, addr_a, handle_a) = pair_with(4096, MrPerms::read() | MrPerms::write());

    // Create Jetty on node A for CQE notification
    let jetty_handle_a = a.jetties.create().unwrap();

    // Write_imm from B to A's MR, notify A's Jetty with imm=42
    let dst_jetty = JettyAddr { node_id: 1, jetty_id: jetty_handle_a.0 };
    let data = [0xDE, 0xAD, 0xBE, 0xEF];
    let out = b.engine.ub_write_imm_remote(&b.cache, addr_a, &data, 42, 1, dst_jetty).unwrap();
    deliver(&mut a, out);

    // Verify MR was written
    assert_eq!(a.bytes(handle_a, 4), vec![0xDE, 0xAD, 0xBE, 0xEF]);

    // Verify CQE on node A's Jetty
    let cqe = a.jetties.poll_cqe(jetty_handle_a.0).unwrap();
    assert_eq!(cqe.imm, Some(42));
    assert_eq!(cqe.verb, Verb::WriteImm);
    assert_eq!(cqe.byte_len, 4);
}

/// Two sends on the same pair of jetties arrive in order.
#[test]
fn test_message_ordering_same_jetty_pair() {
    let (mut a, mut b, _, _) = pair(1024);

    // Create Jetty on A, post 2 recv buffers
    let jetty_handle_a = a.jetties.create().unwrap();

    // Post recv with different wr_ids so we can identify ordering
    a.jetties.post_recv(jetty_handle_a.0, vec![0u8; 64], 100).unwrap(); // first recv
    a.jetties.post_recv(jetty_handle_a.0, vec![0u8; 64], 101).unwrap(); // second recv

    // Create Jetty on B for src
    let jetty_handle_b = b.jetties.create().unwrap();

    let dst_jetty = JettyAddr { node_id: 1, jetty_id: jetty_handle_a.0 };

    // Send message 1 then message 2
    for byte in [1u8, 2u8] {
        let out = b.engine.ub_send_remote(jetty_handle_b.0, dst_jetty, &[byte]).unwrap();
        deliver(&mut a, out);
    }

    // First CQE should be for wr_id=100, second for wr_id=101
    let cqe1 = a.jetties.poll_cqe(jetty_handle_a.0).expect("first CQE");
    let cqe2 = a.jetties.poll_cqe(jetty_handle_a.0).expect("second CQE");

    assert_eq!(cqe1.wr_id, 100, "first CQE should match first recv buffer");
    assert_eq!(cqe2.wr_id, 101, "second CQE should match second recv buffer");
}

/// Sends to the same jetty that are all on their way at once.
#[test]
fn test_concurrent_sends_same_jetty() {
    let (mut a, mut b, _, _) = pair(1024);

    // Create Jetty on A, post 4 recv buffers
    let jetty_handle_a = a.jetties.create().unwrap();
    for i in 0..4u64 {
        a.jetties.post_recv(jetty_handle_a.0, vec![0u8; 64], 200 + i).unwrap();
    }

    b.jetties.create().unwrap();
    let dst_jetty = JettyAddr { node_id: 1, jetty_id: jetty_handle_a.0 };

    let mut sends = Vec::new();
    for i in 0..4u8 {
        sends.push(b.engine.ub_send_remote(1, dst_jetty, &[i]).unwrap());
    }
    for out in sends.into_iter().rev() {
        deliver(&mut a, out);
    }

    // All 4 CQEs should arrive
    let mut cqe_count = 0;
    while a.jetties.poll_cqe(jetty_handle_a.0).is_some() {
        cqe_count += 1;
    }
    assert_eq!(cqe_count, 4, "all 4 concurrent sends should produce CQEs");
}
