use unibus::config::JettyConfig;
use unibus::error::{UbError, UB_ERR_FLUSHED, UB_OK};
use unibus::jetty::{Jetty, JettyTable, WorkRequest};
use unibus::types::{Cqe, JettyAddr, JettyHandle, Verb};

fn default_config() -> JettyConfig {
    JettyConfig {
        jfs_depth: 16,
        jfr_depth: 16,
        jfc_depth: 16,
        jfc_high_watermark: 12,
    }
}

#[test]
fn test_jetty_post_recv_and_pop() {
    let config = default_config();
    let mut jetty = Jetty::new(JettyHandle(1), 1, &config);

    jetty.post_recv(vec![0u8; 64], 100).unwrap();
    jetty.post_recv(vec![0u8; 128], 101).unwrap();
    jetty.post_recv(vec![0u8; 256], 102).unwrap();

    let buf1 = jetty.pop_recv().unwrap();
    assert_eq!(buf1.wr_id, 100);
    assert_eq!(buf1.buf.len(), 64);

    let buf2 = jetty.pop_recv().unwrap();
    assert_eq!(buf2.wr_id, 101);
    assert_eq!(buf2.buf.len(), 128);

    let buf3 = jetty.pop_recv().unwrap();
    assert_eq!(buf3.wr_id, 102);
}

#[test]
fn test_jetty_post_send_and_pop() {
    let config = default_config();
    let mut jetty = Jetty::new(JettyHandle(1), 1, &config);

    let wr1 = WorkRequest {
        wr_id: 200,
        dst_jetty: JettyAddr { node_id: 2, jetty_id: 1 },
        data: vec![1, 2, 3],
        imm: None,
        verb: Verb::Send,
        ub_addr: None,
        mr_handle: None,
    };
    let wr2 = WorkRequest {
        wr_id: 201,
        dst_jetty: JettyAddr { node_id: 2, jetty_id: 1 },
        data: vec![4, 5, 6],
        imm: Some(42),
        verb: Verb::Send,
        ub_addr: None,
        mr_handle: None,
    };

    jetty.post_send(wr1).unwrap();
    jetty.post_send(wr2).unwrap();

    let popped1 = jetty.pop_send().unwrap();
    assert_eq!(popped1.wr_id, 200);

    let popped2 = jetty.pop_send().unwrap();
    assert_eq!(popped2.wr_id, 201);
    assert_eq!(popped2.imm, Some(42));
}

#[test]
fn test_jetty_cqe_push_and_poll() {
    let config = default_config();
    let mut jetty = Jetty::new(JettyHandle(1), 1, &config);

    let cqe1 = Cqe {
        wr_id: 300,
        status: UB_OK,
        imm: None,
        byte_len: 3,
        jetty_id: 1,
        verb: Verb::Send,
    };
    let cqe2 = Cqe {
        wr_id: 301,
        status: UB_OK,
        imm: Some(99),
        byte_len: 5,
        jetty_id: 1,
        verb: Verb::Send,
    };

    jetty.push_cqe(cqe1).unwrap();
    jetty.push_cqe(cqe2).unwrap();

    let polled1 = jetty.poll_cqe().unwrap();
    assert_eq!(polled1.wr_id, 300);
    assert_eq!(polled1.imm, None);

    let polled2 = jetty.poll_cqe().unwrap();
    assert_eq!(polled2.wr_id, 301);
    assert_eq!(polled2.imm, Some(99));

    assert!(jetty.poll_cqe().is_none());
}

#[test]
fn test_jetty_jfc_high_watermark_backpressure() {
    let config = default_config();
    let mut jetty = Jetty::new(JettyHandle(1), 1, &config);
    // jfc_high_watermark = 12

    // Fill JFC to the watermark
    for i in 0..12 {
        let cqe = Cqe {
            wr_id: i,
            status: UB_OK,
            imm: None,
            byte_len: 0,
            jetty_id: 1,
            verb: Verb::Send,
        };
        jetty.push_cqe(cqe).unwrap();
    }

    // Now post_send should fail with NoResources
    let wr = WorkRequest {
        wr_id: 999,
        dst_jetty: JettyAddr { node_id: 2, jetty_id: 1 },
        data: vec![1],
        imm: None,
        verb: Verb::Send,
        ub_addr: None,
        mr_handle: None,
    };
    assert!(matches!(jetty.post_send(wr), Err(UbError::NoResources)));

    // Poll a CQE to free space
    let _ = jetty.poll_cqe().unwrap();

    // Now post_send should succeed
    let wr2 = WorkRequest {
        wr_id: 1000,
        dst_jetty: JettyAddr { node_id: 2, jetty_id: 1 },
        data: vec![2],
        imm: None,
        verb: Verb::Send,
        ub_addr: None,
        mr_handle: None,
    };
    assert!(jetty.post_send(wr2).is_ok());
}

#[test]
fn test_jetty_close_flushes_pending() {
    let config = default_config();
    let mut jetty = Jetty::new(JettyHandle(1), 1, &config);

    // Post some send WRs
    for i in 0..3 {
        let wr = WorkRequest {
            wr_id: i,
            dst_jetty: JettyAddr { node_id: 2, jetty_id: 1 },
            data: vec![],
            imm: None,
            verb: Verb::Send,
            ub_addr: None,
            mr_handle: None,
        };
        jetty.post_send(wr).unwrap();
    }

    // Post some recv buffers
    for i in 100..103 {
        jetty.post_recv(vec![0u8; 64], i).unwrap();
    }

    jetty.close();

    // JFS and JFR should be empty
    assert!(jetty.pop_send().is_none());
    assert!(jetty.pop_recv().is_none());

    // JFC should have 6 FLUSHED CQEs (3 sends + 3 recvs)
    let mut flushed_count = 0;
    while let Some(cqe) = jetty.poll_cqe() {
        assert_eq!(cqe.status, UB_ERR_FLUSHED);
        flushed_count += 1;
    }
    assert_eq!(flushed_count, 6);
}

#[test]
fn test_jetty_table_create_lookup_deregister() {
    let config = default_config();
    let mut table = JettyTable::new(1, config);

    let h1 = table.create().unwrap();
    let h2 = table.create().unwrap();
    assert_ne!(h1.0, h2.0);

    let j1 = table.lookup(h1.0).unwrap();
    assert_eq!(j1.handle.0, h1.0);

    let info = table.list();
    assert_eq!(info.len(), 2);

    table.deregister(h1.0).unwrap();
    assert!(table.lookup(h1.0).is_none());
    assert!(table.lookup(h2.0).is_some());

    // Deregister non-existent
    assert!(matches!(table.deregister(9999), Err(UbError::AddrInvalid)));
}

#[test]
fn test_jetty_jfr_depth_limit() {
    let config = JettyConfig {
        jfs_depth: 16,
        jfr_depth: 2,  // very small
        jfc_depth: 16,
        jfc_high_watermark: 12,
    };
    let mut jetty = Jetty::new(JettyHandle(1), 1, &config);

    jetty.post_recv(vec![0u8; 64], 1).unwrap();
    jetty.post_recv(vec![0u8; 64], 2).unwrap();
    // Third should fail
    assert!(matches!(jetty.post_recv(vec![0u8; 64], 3), Err(UbError::NoResources)));
}

#[test]
fn test_jetty_jfs_depth_limit() {
    let config = JettyConfig {
        jfs_depth: 2,  // very small
        jfr_depth: 16,
        jfc_depth: 16,
        jfc_high_watermark: 12,
    };
    let mut jetty = Jetty::new(JettyHandle(1), 1, &config);

    for i in 0..2 {
        let wr = WorkRequest {
            wr_id: i,
            dst_jetty: JettyAddr { node_id: 2, jetty_id: 1 },
            data: vec![],
            imm: None,
            verb: Verb::Send,
            ub_addr: None,
            mr_handle: None,
        };
        jetty.post_send(wr).unwrap();
    }
    // Third should fail
    let wr = WorkRequest {
        wr_id: 2,
        dst_jetty: JettyAddr { node_id: 2, jetty_id: 1 },
        data: vec![],
        imm: None,
        verb: Verb::Send,
        ub_addr: None,
        mr_handle: None,
    };
    assert!(matches!(jetty.post_send(wr), Err(UbError::NoResources)));
}

#[test]
fn test_jetty_jfc_backpressure_recovery() {
    let config = default_config();
    // jfc_depth = 16, jfc_high_watermark = 12
    let mut jetty = Jetty::new(JettyHandle(1), 1, &config);

    // Fill JFC to the high watermark
    for i in 0..12 {
        let cqe = Cqe {
            wr_id: i,
            status: UB_OK,
            imm: None,
            byte_len: 0,
            jetty_id: 1,
            verb: Verb::Send,
        };
        jetty.push_cqe(cqe).unwrap();
    }

    // post_send should be blocked
    let wr = WorkRequest {
        wr_id: 999,
        dst_jetty: JettyAddr { node_id: 2, jetty_id: 1 },
        data: vec![],
        imm: None,
        verb: Verb::Send,
        ub_addr: None,
        mr_handle: None,
    };
    assert!(matches!(jetty.post_send(wr), Err(UbError::NoResources)));

    // Drain 1 CQE — now below high watermark
    let _ = jetty.poll_cqe().unwrap();

    // post_send should succeed now
    let wr2 = WorkRequest {
        wr_id: 1000,
        dst_jetty: JettyAddr { node_id: 2, jetty_id: 1 },
        data: vec![1],
        imm: None,
        verb: Verb::Send,
        ub_addr: None,
        mr_handle: None,
    };
    assert!(jetty.post_send(wr2).is_ok());
}

#[test]
fn test_default_jetty_first_create() {
    let config = default_config();
    let mut table = JettyTable::new(1, config);

    // No default yet
    assert!(table.default_jetty().is_none());

    let h1 = table.create().unwrap();
    // First Jetty becomes default
    assert_eq!(table.default_jetty(), Some(h1));

    let h2 = table.create().unwrap();
    // Second create does NOT change default
    assert_eq!(table.default_jetty(), Some(h1));
    assert_ne!(h1.0, h2.0);
}

#[test]
fn test_default_jetty_not_changed_on_second_create() {
    let config = default_config();
    let mut table = JettyTable::new(1, config);
    let h1 = table.create().unwrap();
    let _h2 = table.create().unwrap();
    let _h3 = table.create().unwrap();
    assert_eq!(table.default_jetty(), Some(h1));
}

#[test]
fn test_default_jetty_close_clears() {
    let config = default_config();
    let mut table = JettyTable::new(1, config);
    let h1 = table.create().unwrap();
    assert_eq!(table.default_jetty(), Some(h1));

    table.deregister(h1.0).unwrap();
    // Default cleared since h1 was removed
    assert!(table.default_jetty().is_none());

    // Creating another after default was cleared makes it the new default
    let h2 = table.create().unwrap();
    assert_eq!(table.default_jetty(), Some(h2));
}
