use unibus::error::UbError;
use unibus::frame::AckPayload;
use unibus::session::{ReceiveAction, ReliableSession, SessionState};

fn make_session() -> ReliableSession {
    ReliableSession::new(1, 2, 100, 200, 8, 64)
}

#[test]
fn test_assign_seq_increments() {
    let mut session = make_session();
    let mut frame = vec![0u8; 64];
    // Set a valid magic to avoid confusing downstream code
    frame[0..4].copy_from_slice(&0x5542_5543u32.to_be_bytes());

    let seq1 = session.assign_seq(&mut frame, false, 0, 0);
    let seq2 = session.assign_seq(&mut frame, false, 1, 0);
    assert_eq!(seq1, 1);
    assert_eq!(seq2, 2);
    assert_eq!(session.next_seq, 3);
    assert_eq!(session.retransmit_queue.len(), 2);
}

#[test]
fn test_process_ack_removes_entries() {
    let mut session = make_session();
    let mut frame = vec![0u8; 64];

    // Fire-and-forget entries are removed by ACK
    session.assign_seq(&mut frame, true, 0, 0);  // seq=1
    session.assign_seq(&mut frame, true, 1, 0);  // seq=2
    // Request-response entries are kept by ACK (until response received)
    session.assign_seq(&mut frame, false, 2, 0); // seq=3

    assert_eq!(session.retransmit_queue.len(), 3);

    let ack = AckPayload {
        ack_seq: 2,
        credit_grant: 0,
        reserved: 0,
        sack_bitmap: None,
    };
    let removed = session.process_ack(&ack);
    assert_eq!(removed.len(), 2); // Only fire-and-forget entries removed
    assert_eq!(session.retransmit_queue.len(), 1); // Request-response entry kept
    assert_eq!(session.retransmit_queue.front().unwrap().seq, 3);
    assert_eq!(session.retransmit_queue.front().unwrap().opaque, 2);
}

#[test]
fn test_complete_request_removes_entry() {
    let mut session = make_session();
    let mut frame = vec![0u8; 64];

    session.assign_seq(&mut frame, false, 42, 0);

    assert_eq!(session.retransmit_queue.len(), 1);

    // ACK doesn't remove it
    let ack = AckPayload {
        ack_seq: 1,
        credit_grant: 0,
        reserved: 0,
        sack_bitmap: None,
    };
    session.process_ack(&ack);
    assert_eq!(session.retransmit_queue.len(), 1); // Still there

    // complete_request removes it
    assert!(session.complete_request(42));
    assert_eq!(session.retransmit_queue.len(), 0);
}

#[test]
fn test_credit_consume_and_add() {
    let mut session = make_session();
    assert_eq!(session.available_credits, 64);

    session.consume_credit().unwrap();
    session.consume_credit().unwrap();
    assert_eq!(session.available_credits, 62);

    session.add_credits(10);
    assert_eq!(session.available_credits, 72);
}

#[test]
fn test_credit_exhausted() {
    let mut session = ReliableSession::new(1, 2, 100, 200, 8, 2);
    session.consume_credit().unwrap();
    session.consume_credit().unwrap();
    assert!(matches!(session.consume_credit(), Err(UbError::NoResources)));
}

#[test]
fn test_receive_frame_in_order() {
    let mut session = make_session();
    assert_eq!(session.receive_frame(1), ReceiveAction::Deliver);
    assert_eq!(session.receive_frame(2), ReceiveAction::Deliver);
}

#[test]
fn test_receive_frame_duplicate() {
    let mut session = make_session();
    session.receive_frame(1);
    assert_eq!(session.receive_frame(1), ReceiveAction::Duplicate);
}

#[test]
fn test_receive_frame_out_of_order() {
    let mut session = make_session();
    assert_eq!(session.receive_frame(5), ReceiveAction::OutOfOrder);
}

#[test]
fn test_receive_frame_beyond_window() {
    let mut session = make_session();
    assert_eq!(session.receive_frame(1025), ReceiveAction::BeyondWindow);
}

#[test]
fn test_mark_executed_idempotency() {
    let mut session = make_session();
    assert!(!session.is_executed(1));
    session.mark_executed(1);
    assert!(session.is_executed(1));
    // Mark again — should still be true
    session.mark_executed(1);
    assert!(session.is_executed(1));
    // Unexecuted seq
    assert!(!session.is_executed(2));
}

#[test]
fn test_kill_returns_all_entries() {
    let mut session = make_session();
    let mut frame = vec![0u8; 64];
    session.assign_seq(&mut frame, false, 0, 0);
    session.assign_seq(&mut frame, false, 1, 0);

    let killed = session.kill();
    assert_eq!(killed.len(), 2);
    assert_eq!(session.state, SessionState::Dead);
    assert_eq!(session.retransmit_queue.len(), 0);
}

#[test]
fn test_build_ack_payload() {
    let mut session = make_session();
    session.receive_frame(1);
    session.receive_frame(2);

    let ack = session.build_ack_payload(false);
    // ack_seq = next_expected - 1 = 3 - 1 = 2
    assert_eq!(ack.ack_seq, 2);
    // credits_to_grant = 2 (received 2 frames)
    assert_eq!(ack.credit_grant, 2);
    // frames_since_last_ack should be reset
    assert_eq!(session.frames_since_last_ack, 0);
}

#[test]
fn test_build_ack_payload_with_sack() {
    let mut session = make_session();
    // Receive seq=1 and seq=3 (gap at seq=2)
    session.receive_frame(1);
    session.receive_frame(3);

    let ack = session.build_ack_payload(true);
    // After receiving 1 the next expected is 2, and it stays 2 after receiving 3
    assert_eq!(ack.ack_seq, 1);
    // SACK bitmap: bit for (ack_seq+1+0)=2 should NOT be set (not received)
    // bit for (ack_seq+1+1)=3 should be set (received)
    let bitmap = ack.sack_bitmap.unwrap();
    assert_eq!(bitmap[0] & 0b10, 0b10); // bit 1 set (seq=3)
    assert_eq!(bitmap[0] & 0b01, 0);     // bit 0 not set (seq=2)
}

#[test]
fn test_check_rto_detects_timeout() {
    let mut session = ReliableSession::new(1, 2, 100, 100, 8, 64);
    let mut frame = vec![0u8; 64];
    session.assign_seq(&mut frame, false, 0, 0);

    // Not timed out yet
    let timeouts = session.check_rto(0);
    assert!(timeouts.is_empty());

    // After RTO
    let future = 200;
    let timeouts = session.check_rto(future);
    assert_eq!(timeouts.len(), 1);
    assert_eq!(timeouts[0], 1);
}

#[test]
fn test_check_rto_max_retries_kills_session() {
    let mut session = ReliableSession::new(1, 2, 100, 50, 2, 64);
    let mut frame = vec![0u8; 64];
    session.assign_seq(&mut frame, false, 0, 0);

    // Simulate exceeding max retries
    let entry = session.retransmit_queue.front_mut().unwrap();
    entry.retry_count = 2; // max_retries = 2

    let future = 200;
    let timeouts = session.check_rto(future);
    // Session should be killed
    assert!(timeouts.is_empty()); // Empty because session is dead
    assert_eq!(session.state, SessionState::Dead);
}

#[test]
fn test_should_send_ack() {
    let mut session = make_session();
    assert!(!session.should_send_ack());
    for _ in 0..8 {
        session.frames_since_last_ack += 1;
    }
    assert!(session.should_send_ack());
}

#[test]
fn test_aimd_slow_start() {
    let mut session = ReliableSession::new(1, 2, 100, 200, 8, 4);
    // cwnd starts at initial_credits = 4, ssthresh = MAX
    assert_eq!(session.cwnd, 4);

    // Slow start: cwnd doubles on each new ACK
    session.on_new_ack();
    assert_eq!(session.cwnd, 8); // 4 * 2

    session.on_new_ack();
    assert_eq!(session.cwnd, 16); // 8 * 2
}

#[test]
fn test_aimd_congestion_avoidance() {
    let mut session = ReliableSession::new(1, 2, 100, 200, 8, 4);
    // Force into congestion avoidance
    session.ssthresh = 8;
    session.cwnd = 8;

    // Congestion avoidance: cwnd += 1 (additive increase)
    session.on_new_ack();
    assert_eq!(session.cwnd, 9);

    session.on_new_ack();
    assert_eq!(session.cwnd, 10);
}

#[test]
fn test_aimd_multiplicative_decrease() {
    let mut session = ReliableSession::new(1, 2, 100, 200, 8, 64);
    session.cwnd = 32;

    // On loss: ssthresh = cwnd/2, cwnd = 1
    session.on_loss();
    assert_eq!(session.ssthresh, 16);
    assert_eq!(session.cwnd, 1);
}

#[test]
fn test_rtt_karn_skip_retransmit() {
    let mut session = make_session();
    let mut frame = vec![0u8; 64];
    frame[0..4].copy_from_slice(&0x5542_5543u32.to_be_bytes());
    session.assign_seq(&mut frame, true, 0, 0);

    // Simulate retransmission by incrementing retry_count
    session.retransmit_queue.front_mut().unwrap().retry_count = 1;

    // An ACK for a retransmitted frame gives no RTT sample
    let ack = AckPayload {
        ack_seq: 1,
        credit_grant: 1,
        reserved: 0,
        sack_bitmap: None,
    };
    assert!(session.rtt_samples(&ack, 50).is_empty());
    session.process_ack(&ack);
}

#[test]
fn test_sack_fast_retransmit() {
    let mut session = make_session();

    // First, set last_ack_seq by processing an initial ACK
    session.last_ack_seq = 1;

    // Simulate 3 duplicate ACKs with SACK
    let mut bitmap = [0u8; 32];
    bitmap[0] = 0b10; // seq=3 received

    let ack = AckPayload {
        ack_seq: 1, // Not advancing past last_ack_seq=1
        credit_grant: 0,
        reserved: 0,
        sack_bitmap: Some(bitmap),
    };

    // First dup ACK — no retransmit
    assert!(session.process_ack_for_fast_retransmit(&ack).is_none());
    // Second dup ACK — no retransmit
    assert!(session.process_ack_for_fast_retransmit(&ack).is_none());
    // Third dup ACK — trigger fast retransmit
    let result = session.process_ack_for_fast_retransmit(&ack);
    assert!(result.is_some());
    assert_eq!(result.unwrap(), 2); // Retransmit seq=2 (ack_seq+1)
}

#[test]
fn test_send_available() {
    let mut session = ReliableSession::new(1, 2, 100, 200, 8, 64);
    // cwnd=64, no outstanding frames
    assert_eq!(session.send_available(), 64);

    // Add some outstanding frames
    let mut frame = vec![0u8; 64];
    frame[0..4].copy_from_slice(&0x5542_5543u32.to_be_bytes());
    session.assign_seq(&mut frame, false, 0, 0);
    session.assign_seq(&mut frame, false, 1, 0);
    session.assign_seq(&mut frame, false, 2, 0);

    // 64 - 3 = 61
    assert_eq!(session.send_available(), 61);
}
