use unibus::addr::UbAddr;
use unibus::codec::{credit_to_vec, decode_ack_payload, decode_frame, frame_to_vec};
use unibus::config::{FlowConfig, TransportConfig};
use unibus::dedup::{DedupResult, DedupWindow};
use unibus::error::UbError;
use unibus::frame::{
    AckPayload, CreditPayload, DataExtHeader, ExtFlags, FrameFlags, FrameHeader, FrameType, MAGIC,
    VERSION,
};
use unibus::manager::{build_ack_frame, build_credit_frame, TransportManager};
use unibus::read_cache::ReadResponseCache;
use unibus::session::{ReceiveAction, ReliableSession, SessionState};
use unibus::types::Verb;

fn ack(ack_seq: u64, credit_grant: u32) -> AckPayload {
    AckPayload { ack_seq, credit_grant, reserved: 0, sack_bitmap: None }
}

fn header(src_node: u16, dst_node: u16, stream_seq: u64) -> FrameHeader {
    FrameHeader {
        magic: MAGIC,
        version: VERSION,
        frame_type: FrameType::Data,
        flags: FrameFlags::empty(),
        src_node,
        dst_node,
        reserved: 0,
        stream_seq,
        payload_len: 1,
        header_crc: 0,
    }
}

fn ext(verb: Verb) -> DataExtHeader {
    DataExtHeader {
        verb,
        ext_flags: ExtFlags::empty(),
        mr_handle: 1,
        jetty_src: 0,
        jetty_dst: 0,
        opaque: 0,
        frag_id: 0,
        frag_index: 0,
        frag_total: 1,
        ub_addr: UbAddr::new(1, 1, 0, 0, 0),
        imm: None,
    }
}

/// A data frame from node 1 to node 2.
fn data_frame(seq: u64, verb: Verb) -> Vec<u8> {
    frame_to_vec(&header(1, 2, seq), Some(&ext(verb)), &[seq as u8])
}

fn manager(node: u16, peer: u16) -> TransportManager {
    let mut m = TransportManager::new(node, TransportConfig::default(), FlowConfig::default());
    m.create_session(peer, 7, 64).unwrap();
    m.register_peer_sender(peer);
    m
}

#[test]
fn a_received_number_stays_a_duplicate() {
    let mut window = DedupWindow::with_window_size(10, 8);
    for seq in [10, 12, 15, 11] {
        window.mark_and_advance(seq);
    }
    assert_eq!(window.next_expected(), 13);
    for seq in [0, 9, 10, 11, 12, 15] {
        assert_eq!(window.check(seq), DedupResult::AlreadySeen);
        assert!(window.is_seen(seq));
    }
    assert_eq!(window.check(13), DedupResult::InOrder);
    assert_eq!(window.check(14), DedupResult::OutOfOrder);
    assert_eq!(window.check(21), DedupResult::BeyondWindow);
    // Beyond the window nothing is marked
    assert_eq!(window.mark_and_advance(21), 13);
    assert!(!window.is_seen(21));
    assert_eq!(window.window_size(), 8);
}

#[test]
fn a_frame_carries_its_number_and_asks_for_an_acknowledgement() {
    let mut session = ReliableSession::new(1, 2, 100, 200, 8, 64);
    let mut frame = frame_to_vec(&header(1, 2, 0), Some(&ext(Verb::Write)), &[9]);
    let before = frame.clone();
    assert_eq!(session.assign_seq(&mut frame, true, 5, 1000), 1);
    let (h, e, payload) = decode_frame(&frame).unwrap();
    assert_eq!(h.stream_seq, 1);
    assert_eq!(h.flags, FrameFlags::ack_req());
    assert_eq!((e, payload), (Some(ext(Verb::Write)), &[9u8][..]));
    assert_eq!(frame[24..], before[24..]);
    let entry = session.get_retransmit_entry(1).unwrap();
    assert_eq!(entry.frame, frame);
    assert_eq!((entry.first_sent_at, entry.rto_deadline), (1000, 1200));

    // A frame too short for a header is queued as it is
    let mut short = vec![7u8; 5];
    session.assign_seq(&mut short, true, 0, 0);
    assert_eq!(short, vec![7u8; 5]);
}

#[test]
fn a_frame_stays_queued_until_the_peer_has_it() {
    let mut sender = ReliableSession::new(1, 2, 100, 200, 8, 64);
    let mut receiver = ReliableSession::new(2, 1, 100, 200, 8, 64);
    for opaque in 0..4 {
        sender.assign_seq(&mut vec![0u8; 64], true, opaque, 0);
    }
    // The second frame is lost
    for seq in [1, 3, 4] {
        receiver.receive_frame(seq);
    }
    let first = receiver.build_ack_payload(true);
    assert_eq!((first.ack_seq, first.credit_grant), (1, 3));
    let bits = first.sack_bitmap.unwrap();
    assert_eq!((bits[0], bits[1]), (0b110, 0));
    let gone: Vec<u64> = sender.process_ack(&first).iter().map(|e| e.seq).collect();
    assert_eq!(gone, vec![1]);
    let left: Vec<u64> = sender.retransmit_queue.iter().map(|e| e.seq).collect();
    assert_eq!(left, vec![2, 3, 4]);
    assert_eq!(sender.available_credits, 67);

    // Once it has arrived, everything is settled
    assert_eq!(receiver.receive_frame(2), ReceiveAction::Deliver);
    let second = receiver.build_ack_payload(false);
    assert_eq!((second.ack_seq, second.sack_bitmap), (4, None));
    assert_eq!(sender.process_ack(&second).len(), 3);
    assert_eq!(sender.pending_count(), 0);
}

#[test]
fn retries_wait_twice_as_long_each_time_until_none_is_left() {
    let mut session = ReliableSession::new(1, 2, 100, 200, 2, 64);
    session.assign_seq(&mut vec![0u8; 64], false, 9, 0);
    assert!(session.check_rto(199).is_empty());
    assert_eq!(session.check_rto(200), vec![1]);
    assert_eq!(session.get_retransmit_entry(1).unwrap().rto_deadline, 200 + 400);
    assert_eq!((session.cwnd, session.ssthresh), (1, 32));
    assert_eq!(session.resend_due(600).len(), 1);
    assert_eq!(session.get_retransmit_entry(1).unwrap().rto_deadline, 600 + 800);
    assert!(session.resend_due(1400).is_empty());
    assert_eq!(session.state, SessionState::Dead);
    assert_eq!(session.pending_count(), 0);
    assert!(session.check_rto(u64::MAX / 2).is_empty());
}

#[test]
fn back_off_ends_at_ten_doublings() {
    let mut session = ReliableSession::new(1, 2, 100, 300, 100, 64);
    session.assign_seq(&mut vec![0u8; 64], false, 9, 0);
    let mut now = 300;
    for n in 1..=12u32 {
        assert_eq!(session.check_rto(now), vec![1]);
        let wait = 300 * (1u64 << n.min(10));
        let deadline = session.get_retransmit_entry(1).unwrap().rto_deadline;
        assert_eq!(deadline, now + wait);
        now = deadline;
    }
}

#[test]
fn timeouts_are_kept_within_bounds() {
    let mut session = ReliableSession::new(1, 2, 100, 50, 8, 64);
    assert_eq!(session.rto, 200);
    session.set_rto(100_000);
    assert_eq!(session.rto, 60_000);
    session.set_rto(777);
    assert_eq!(session.rto, 777);
}

#[test]
fn samples_come_from_frames_sent_once() {
    let mut session = ReliableSession::new(1, 2, 100, 200, 8, 64);
    session.assign_seq(&mut vec![0u8; 64], true, 0, 10);
    session.assign_seq(&mut vec![0u8; 64], false, 1, 20);
    session.assign_seq(&mut vec![0u8; 64], true, 2, 30);
    session.retransmit_queue[2].retry_count = 1;
    assert_eq!(session.rtt_samples(&ack(3, 0), 60), vec![50]);
    assert!(session.rtt_samples(&ack(3, 0), 10).is_empty());
    session.last_ack_seq = 3;
    assert!(session.rtt_samples(&ack(3, 0), 60).is_empty());
}

#[test]
fn credits_and_window_do_not_run_over() {
    let mut session = ReliableSession::new(1, 2, 100, 200, 8, u32::MAX - 1);
    session.add_credits(5);
    assert_eq!(session.available_credits, u32::MAX);
    session.cwnd = u32::MAX / 2 + 1;
    session.on_new_ack();
    assert_eq!(session.cwnd, u32::MAX);
    session.cwnd = 3;
    session.on_loss();
    assert_eq!(session.ssthresh, 2);
    assert_eq!(session.send_available(), 1);
}

#[test]
fn records_of_the_last_1024_executions_are_kept() {
    let mut session = ReliableSession::new(1, 2, 100, 200, 8, 64);
    for seq in 1..=1025 {
        session.mark_executed(seq);
    }
    assert!(!session.is_executed(1));
    assert!(session.is_executed(2));
    assert!(session.is_executed(1025));
    session.mark_executed(2);
    assert!(session.is_executed(3));
}

#[test]
fn only_the_waiting_request_is_completed() {
    let mut session = ReliableSession::new(1, 2, 100, 200, 8, 64);
    session.assign_seq(&mut vec![0u8; 64], true, 5, 0);
    session.assign_seq(&mut vec![0u8; 64], false, 5, 0);
    assert!(!session.complete_request(6));
    assert!(session.complete_request(5));
    assert!(!session.complete_request(5));
    assert_eq!(session.retransmit_queue[0].seq, 1);
    assert_eq!(session.kill().len(), 1);
}

#[test]
fn responses_are_cached_until_they_are_too_old() {
    let mut cache = ReadResponseCache::new(2, 50);
    cache.insert((1, 7), vec![1, 2], 100);
    assert_eq!(cache.get((1, 7), 150), Some(vec![1, 2]));
    assert_eq!(cache.get((1, 7), 151), None);
    assert!(cache.is_empty());
    // No more than its capacity is held
    for opaque in 0..5 {
        cache.insert((1, opaque), vec![opaque as u8], 0);
    }
    assert_eq!(cache.len(), 2);
    assert_eq!(cache.get((1, 4), 0), Some(vec![4]));
    assert_eq!(cache.get((1, 2), 0), None);
}

#[test]
fn a_repeated_frame_is_delivered_once() {
    let mut b = manager(2, 1);
    let frame = data_frame(1, Verb::Write);
    let first = b.handle_incoming(&frame, 0);
    assert_eq!(first.delivered.unwrap().payload, vec![1]);
    assert!(first.reply.is_none());
    let second = b.handle_incoming(&frame, 0);
    assert!(second.delivered.is_none());
    // The repetition is acknowledged at once
    let reply = second.reply.unwrap();
    assert_eq!(reply.dst, 1);
    let (h, _, payload) = decode_frame(&reply.frame).unwrap();
    assert_eq!((h.frame_type, h.src_node, h.dst_node), (FrameType::Ack, 2, 1));
    let told = decode_ack_payload(payload, false).unwrap();
    assert_eq!((told.ack_seq, told.credit_grant), (1, 2));
}

#[test]
fn a_repeated_request_is_handed_on_again() {
    let mut b = manager(2, 1);
    let frame = data_frame(1, Verb::ReadReq);
    assert!(b.handle_incoming(&frame, 0).delivered.is_some());
    assert!(b.handle_incoming(&frame, 0).delivered.is_some());
}

#[test]
fn a_gap_is_reported_selectively() {
    let mut b = manager(2, 1);
    let arrival = b.handle_incoming(&data_frame(3, Verb::Write), 0);
    assert!(arrival.delivered.is_none());
    let reply = arrival.reply.unwrap();
    let (h, _, payload) = decode_frame(&reply.frame).unwrap();
    assert!(h.flags.contains(FrameFlags::has_sack()));
    let told = decode_ack_payload(payload, true).unwrap();
    assert_eq!(told.ack_seq, 0);
    assert_eq!(told.sack_bitmap.unwrap()[0], 0b100);
    // Far ahead nothing is taken in
    let far = b.handle_incoming(&data_frame(5000, Verb::Write), 0);
    assert!(far.delivered.is_none() && far.reply.is_none());
}

#[test]
fn every_eighth_frame_is_acknowledged() {
    let mut b = manager(2, 1);
    for seq in 1..=16 {
        let arrival = b.handle_incoming(&data_frame(seq, Verb::Write), 0);
        assert!(arrival.delivered.is_some());
        assert_eq!(arrival.reply.is_some(), seq % 8 == 0);
    }
}

#[test]
fn frames_outside_of_sessions_are_handed_on() {
    let mut m = TransportManager::new(2, TransportConfig::default(), FlowConfig::default());
    assert!(m.handle_incoming(&data_frame(4, Verb::Write), 0).delivered.is_some());
    let mut b = manager(2, 1);
    assert!(b.handle_incoming(&data_frame(0, Verb::Write), 0).delivered.is_some());
    assert!(b.handle_incoming(&data_frame(0, Verb::Write), 0).delivered.is_some());
    assert!(b.handle_incoming(&[1, 2, 3], 0).delivered.is_none());
    assert!(b.is_ready(&[1, 2, 3]));
}

#[test]
fn sending_takes_a_session_a_credit_and_a_link() {
    let mut m = TransportManager::new(1, TransportConfig::default(), FlowConfig::default());
    let mut frame = vec![0u8; 64];
    assert!(matches!(m.send(2, &mut frame, true, 0, 0), Err(UbError::LinkDown)));
    m.create_session(2, 7, 1).unwrap();
    match m.create_session(2, 7, 1) {
        Err(UbError::Internal(t)) => assert_eq!(
            t,
            "session already exists for SessionKey { local_node: 1, remote_node: 2, epoch: 7 }"
        ),
        _ => panic!("expected an internal error"),
    }
    m.register_peer_sender(2);
    assert_eq!(m.send(2, &mut frame, true, 0, 0).unwrap(), 1);
    assert!(matches!(m.send(2, &mut frame, true, 0, 0), Err(UbError::NoResources)));
    // Credits for the peer do not help; credits from the peer do
    m.grant_credits(2, 3);
    assert_eq!(m.session(2, 7).unwrap().credits_to_grant, 3);
    assert!(matches!(m.send(2, &mut frame, true, 0, 0), Err(UbError::NoResources)));
    m.handle_incoming(&build_credit_frame(2, 1, 1), 0);
    assert_eq!(m.send(2, &mut frame, true, 0, 0).unwrap(), 2);
    let unsettled = m.invalidate_session(2, 7);
    assert_eq!(unsettled.len(), 2);
    assert!(m.session(2, 7).is_none());
}

#[test]
fn timeouts_are_looked_for_twice_in_their_time() {
    assert_eq!(manager(1, 2).tick_interval_ms(), 100);
    let config = TransportConfig { rto_ms: 80, ..TransportConfig::default() };
    let m = TransportManager::new(1, config, FlowConfig::default());
    assert_eq!(m.tick_interval_ms(), 50);
}

#[test]
fn due_frames_are_sent_again() {
    let mut a = manager(1, 2);
    let mut frame = vec![0u8; 64];
    a.send(2, &mut frame, true, 0, 0).unwrap();
    assert!(a.tick_rto(199).is_empty());
    let again = a.tick_rto(200);
    assert_eq!(again.len(), 1);
    assert_eq!((again[0].dst, again[0].frame.clone()), (2, frame));
}

#[test]
fn acknowledgements_and_credits_arrive() {
    let mut a = manager(1, 2);
    a.send(2, &mut vec![0u8; 64], true, 0, 10).unwrap();
    let arrival = a.handle_incoming(&build_ack_frame(2, 1, &ack(1, 5)), 60);
    let report = arrival.report.unwrap();
    assert_eq!((report.remote_node, report.epoch, report.samples), (2, 7, vec![50]));
    let session = a.session(2, 7).unwrap();
    assert_eq!((session.pending_count(), session.available_credits), (0, 68));
    a.set_rto(2, 7, 900);
    assert_eq!(a.session(2, 7).unwrap().rto, 900);
    a.handle_incoming(&build_credit_frame(2, 1, 4), 0);
    assert_eq!(a.session(2, 7).unwrap().available_credits, 72);
    let mut h = header(2, 1, 0);
    h.frame_type = FrameType::Credit;
    a.handle_credit_frame(&h, &credit_to_vec(&CreditPayload { credits: 1, reserved: 0 }));
    assert_eq!(a.session(2, 7).unwrap().available_credits, 73);
}

#[test]
fn responses_are_kept_per_peer() {
    let mut m = manager(1, 2);
    m.read_cache_insert(2, (2, 9), vec![3], 0);
    assert_eq!(m.read_cache_get(2, (2, 9), 0), Some(vec![3]));
    assert_eq!(m.read_cache_get(3, (2, 9), 0), None);
    m.mark_executed(2, 4);
    assert!(m.is_executed(2, 4));
    assert!(!m.is_executed(3, 4));
}

#[test]
fn a_lost_peer_gives_back_what_was_not_settled() {
    let mut m = manager(1, 2);
    m.send(2, &mut vec![0u8; 64], false, 11, 0).unwrap();
    let entries = m.notify_peer_down(2);
    assert_eq!(entries.iter().map(|e| e.opaque).collect::<Vec<u64>>(), vec![11]);
    assert!(matches!(m.send(2, &mut vec![0u8; 64], false, 1, 0), Err(UbError::LinkDown)));
}

#[test]
fn an_acknowledgement_counts_once() {
    let mut session = ReliableSession::new(1, 2, 100, 200, 8, 4);
    session.process_ack(&ack(1, 0));
    assert_eq!((session.cwnd, session.last_ack_seq), (8, 1));
    session.process_ack(&ack(1, 3));
    assert_eq!((session.cwnd, session.last_ack_seq), (8, 1));
    assert_eq!(session.available_credits, 7);
    session.process_ack(&ack(0, 0));
    assert_eq!((session.cwnd, session.last_ack_seq), (8, 1));
    session.process_ack(&ack(2, 0));
    assert_eq!((session.cwnd, session.last_ack_seq), (16, 2));

    // The window of a session that stays without loss ends at the largest number
    let mut lucky = ReliableSession::new(1, 2, 100, 200, 8, 64);
    for seq in 1..=40 {
        lucky.process_ack(&ack(seq, 0));
    }
    assert_eq!((lucky.cwnd, lucky.last_ack_seq), (u32::MAX, 40));

    // A manager takes samples from an acknowledgement once
    let mut a = manager(1, 2);
    a.send(2, &mut vec![0u8; 64], true, 0, 10).unwrap();
    let frame = build_ack_frame(2, 1, &ack(1, 0));
    assert_eq!(a.handle_incoming(&frame, 60).report.unwrap().samples, vec![50]);
    let cwnd = a.session(2, 7).unwrap().cwnd;
    a.send(2, &mut vec![0u8; 64], true, 0, 70).unwrap();
    assert!(a.handle_incoming(&frame, 99).report.unwrap().samples.is_empty());
    assert_eq!(a.session(2, 7).unwrap().cwnd, cwnd);
}

#[test]
fn the_third_repetition_names_the_missing_frame() {
    let mut session = ReliableSession::new(1, 2, 100, 200, 8, 4);
    for _ in 0..3 {
        session.assign_seq(&mut vec![0u8; 64], true, 0, 0);
    }
    // One that advances is no repetition
    let (gone, missing) = session.process_ack_with_fast_retransmit(&ack(1, 0));
    assert_eq!((gone.len(), missing), (1, None));
    assert_eq!((session.cwnd, session.dup_ack_count), (8, 0));
    for _ in 0..2 {
        let (gone, missing) = session.process_ack_with_fast_retransmit(&ack(1, 0));
        assert_eq!((gone.len(), missing), (0, None));
    }
    assert_eq!(session.dup_ack_count, 2);
    let (_, missing) = session.process_ack_with_fast_retransmit(&ack(1, 0));
    assert_eq!(missing, Some(2));
    assert_eq!((session.cwnd, session.dup_ack_count), (8, 0));
}

#[test]
fn frames_are_delivered_once_and_in_order_whatever_arrives() {
    let mut b = manager(2, 1);
    let mut delivered = Vec::new();
    for seq in [1, 3, 1, 2, 3, 1030, 4, 4, 2, 6, 5, 7] {
        let arrival = b.handle_incoming(&data_frame(seq, Verb::Send), 0);
        if let Some(frame) = arrival.delivered {
            delivered.push(frame.seq);
        }
        if seq == 1030 {
            assert!(arrival.reply.is_none());
        }
    }
    // Frames 3 and 6 came after a gap
    assert_eq!(delivered, vec![1, 2, 4, 5, 7]);
}

#[test]
fn the_last_numbers_are_received_too() {
    let mut window = DedupWindow::new(u64::MAX - 2);
    assert_eq!(window.mark_and_advance(7), u64::MAX - 2);
    assert_eq!(window.mark_and_advance(u64::MAX - 1), u64::MAX - 2);
    assert_eq!(window.mark_and_advance(u64::MAX - 2), u64::MAX);
    assert_eq!(window.check(u64::MAX), DedupResult::InOrder);

    let mut session = ReliableSession::new(1, 2, 100, 200, 8, 64);
    session.dedup.reset_to(u64::MAX - 300);
    assert!(session.has_room(3));
    assert!(session.has_room(u64::MAX - 7));
    assert!(!session.has_room(u64::MAX - 300));
    assert_eq!(session.receive_frame(u64::MAX - 7), ReceiveAction::OutOfOrder);
    assert_eq!(session.receive_frame(3), ReceiveAction::Duplicate);
}

#[test]
fn a_cache_without_capacity_holds_the_last_response() {
    let mut cache = ReadResponseCache::new(0, 1000);
    cache.insert((1, 1), vec![1], 0);
    cache.insert((1, 2), vec![2], 0);
    assert_eq!(cache.len(), 1);
    assert_eq!(cache.get((1, 2), 0), Some(vec![2]));

    let mut cache = ReadResponseCache::new(2, 1000);
    cache.insert((1, 1), vec![1], 0);
    cache.insert((1, 2), vec![2], 0);
    cache.get((1, 1), 0);
    cache.insert((1, 3), vec![3], 0);
    assert_eq!(cache.len(), 2);
    assert_eq!(cache.get((1, 2), 0), None);
    assert_eq!(cache.get((1, 1), 0), Some(vec![1]));
}
