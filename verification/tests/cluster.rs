use unibus::config::NodeConfig;
use unibus::control::{
    existing_mrs, message_len, next_retry_delay, ControlPlane, MrPublishEvent, MAX_MESSAGE_LEN,
};
use unibus::member::{MemberTable, NodeInfo};
use unibus::message::{
    ControlMsg, HeartbeatPayload, HelloPayload, MemberDownPayload, MrPublishPayload,
    WriteUnlockPayload,
};
use unibus::mr::{MrCacheTable, MrTable};
use unibus::requests::register_region;
use unibus::types::{DeviceKind, MrPerms, NodeState, PeerChangeEvent};

fn plane(node_id: u16) -> ControlPlane {
    let mut config = NodeConfig::default();
    config.node_id = node_id;
    config.heartbeat.interval_ms = 100;
    config.heartbeat.fail_after = 2;
    ControlPlane::with_epoch(config, MemberTable::new(node_id), MrCacheTable::new(), 77)
}

fn hello(node_id: u16, local_epoch: u32) -> HelloPayload {
    HelloPayload {
        node_id,
        version: 1,
        local_epoch,
        initial_credits: 16,
        data_addr: "10.0.0.2:7901".to_string(),
    }
}

fn node(node_id: u16, state: NodeState, tx: Option<u64>) -> NodeInfo {
    NodeInfo {
        node_id,
        state,
        control_addr: String::new(),
        data_addr: String::new(),
        epoch: node_id as u32,
        initial_credits: 0,
        last_seen: Some(1),
        tx,
    }
}

#[test]
fn a_greeting_is_answered_and_makes_a_member() {
    let mut mrs = MrTable::new(1, 1);
    let (addr, handle) = register_region(&mut mrs, false, 64, MrPerms::read()).unwrap();
    let mut control = plane(1);
    let outcome =
        control.process_control_message(ControlMsg::Hello(hello(2, 5)), Some(&mrs), 9, 1000);
    assert_eq!(outcome.event, Some(PeerChangeEvent::Joined { node_id: 2, epoch: 5 }));
    assert_eq!(outcome.replies.len(), 2);
    match ControlMsg::decode(&outcome.replies[0]).unwrap() {
        ControlMsg::HelloAck(h) => {
            assert_eq!((h.node_id, h.version, h.local_epoch, h.initial_credits), (1, 1, 77, 64));
        }
        _ => panic!("expected HelloAck"),
    }
    match ControlMsg::decode(&outcome.replies[1]).unwrap() {
        ControlMsg::MrPublish(p) => {
            assert_eq!((p.owner_node, p.mr_handle, p.base_ub_addr), (1, handle.0, addr));
            assert_eq!((p.len, p.device_kind), (64, DeviceKind::Memory));
        }
        _ => panic!("expected MrPublish"),
    }
    let member = control.member_table().get(2).unwrap();
    assert_eq!((member.state, member.epoch, member.last_seen), (NodeState::Active, 5, Some(1000)));
    assert_eq!(control.member_table().get_peer_tx(2), Some(9));
    assert_eq!(existing_mrs(None).len(), 0);
    assert_eq!(existing_mrs(Some(&mrs)), outcome.replies[1..].to_vec());

    let outcome = control.process_control_message(ControlMsg::HelloAck(hello(3, 6)), None, 8, 2000);
    assert_eq!(outcome.event, Some(PeerChangeEvent::Joined { node_id: 3, epoch: 6 }));
    assert!(outcome.replies.is_empty());
}

#[test]
fn announced_regions_are_known_until_they_are_revoked() {
    let mut control = plane(2);
    let payload = MrPublishPayload {
        owner_node: 1,
        mr_handle: 4,
        base_ub_addr: unibus::addr::UbAddr::new(1, 1, 0, 8, 0),
        len: 16,
        perms: MrPerms::read(),
        device_kind: DeviceKind::Npu,
    };
    let announced = plane(1).announce(MrPublishEvent::Publish(payload));
    let (prefix, body) = announced.message.split_at(4);
    let outcome = control.handle_message(prefix, body, None, 1, 0);
    assert!(outcome.replies.is_empty() && outcome.event.is_none());
    let at = payload.base_ub_addr.with_offset(23);
    assert_eq!(control.mr_cache().lookup_by_addr(at).unwrap().remote_mr_handle, 4);
    assert!(control.mr_cache().lookup_by_addr(at.with_offset(24)).is_none());

    let revoked = plane(1).announce(MrPublishEvent::Revoke { owner_node: 1, mr_handle: 4 });
    match ControlMsg::decode(&revoked.message).unwrap() {
        ControlMsg::MrRevoke(p) => {
            assert_eq!((p.owner_node, p.mr_handle), (1, 4));
        }
        _ => panic!("expected MrRevoke"),
    }
    let (prefix, body) = revoked.message.split_at(4);
    control.handle_message(prefix, body, None, 1, 0);
    assert!(control.mr_cache().list().is_empty());
}

#[test]
fn heartbeats_are_answered_with_their_timestamp() {
    let mut control = plane(1);
    control.process_control_message(ControlMsg::Hello(hello(2, 5)), None, 9, 1000);
    let beat = ControlMsg::Heartbeat(HeartbeatPayload { node_id: 2, timestamp: 123 });
    let outcome = control.process_control_message(beat, None, 9, 1500);
    match ControlMsg::decode(&outcome.replies[0]).unwrap() {
        ControlMsg::HeartbeatAck(p) => {
            assert_eq!((p.node_id, p.timestamp), (1, 123));
        }
        _ => panic!("expected HeartbeatAck"),
    }
    assert_eq!(control.member_table().get(2).unwrap().last_seen, Some(1500));
}

#[test]
fn a_silent_peer_is_suspected_and_then_given_up() {
    let mut control = plane(1);
    control.register_self(1000);
    control.process_control_message(ControlMsg::Hello(hello(2, 5)), None, 9, 1000);
    let mut events = Vec::new();
    for now in [1100, 1200, 1201, 1202, 1203, 1204, 1205] {
        let beat = control.heartbeat(now);
        events.push(beat.events);
    }
    let suspect = vec![PeerChangeEvent::Suspect { node_id: 2 }];
    let down = vec![PeerChangeEvent::Down { node_id: 2, epoch: 5 }];
    assert_eq!(events, vec![vec![], vec![], vec![], suspect, vec![], down, vec![]]);
    assert_eq!(control.member_table().get(2).unwrap().state, NodeState::Down);
    assert_eq!(control.member_table().get(1).unwrap().state, NodeState::Active);
    // Nobody is left to be told
    assert!(control.heartbeat(1300).broadcast.targets.is_empty());
}

#[test]
fn a_suspect_peer_that_is_heard_of_recovers() {
    let mut control = plane(1);
    control.process_control_message(ControlMsg::Hello(hello(2, 5)), None, 9, 1000);
    control.heartbeat(2000);
    control.heartbeat(2001);
    assert_eq!(control.member_table().get(2).unwrap().state, NodeState::Suspect);
    let beat = ControlMsg::HeartbeatAck(HeartbeatPayload { node_id: 2, timestamp: 0 });
    control.process_control_message(beat, None, 9, 2002);
    let beat = control.heartbeat(2003);
    assert_eq!(beat.events, vec![PeerChangeEvent::Recovered { node_id: 2 }]);
    assert_eq!(beat.broadcast.targets, vec![(2, 9)]);
    match ControlMsg::decode(&beat.broadcast.message).unwrap() {
        ControlMsg::Heartbeat(p) => {
            assert_eq!((p.node_id, p.timestamp), (1, 2003));
        }
        _ => panic!("expected Heartbeat"),
    }
}

#[test]
fn a_farewell_takes_a_node_down() {
    let mut control = plane(1);
    control.process_control_message(ControlMsg::Hello(hello(2, 5)), None, 9, 1000);
    let farewell = plane(2).shutdown();
    let outcome = control.handle_message(&farewell.message[..4], &farewell.message[4..], None, 9, 0);
    assert_eq!(outcome.event, Some(PeerChangeEvent::Down { node_id: 2, epoch: 5 }));
    let unknown = ControlMsg::MemberDown(MemberDownPayload { node_id: 8, reason: 0 });
    let outcome = control.process_control_message(unknown, None, 9, 0);
    assert_eq!(outcome.event, Some(PeerChangeEvent::Down { node_id: 8, epoch: 0 }));
    assert_eq!(control.shutdown().targets, vec![]);
}

#[test]
fn other_messages_and_noise_change_nothing() {
    let mut control = plane(1);
    let other = ControlMsg::WriteUnlock(WriteUnlockPayload { region_id: 1, writer_node_id: 2 });
    let outcome = control.process_control_message(other, None, 9, 0);
    assert!(outcome.replies.is_empty() && outcome.event.is_none());
    let outcome = control.handle_message(&[0, 0, 0, 9], &[1, 2], None, 9, 0);
    assert!(outcome.replies.is_empty() && outcome.event.is_none());
    assert!(control.member_table().list().is_empty());
    assert_eq!(control.local_epoch(), 77);
}

#[test]
fn only_static_bootstrap_connects_to_peers() {
    let mut config = NodeConfig::default();
    config.control.bootstrap = "static".to_string();
    let a = ControlPlane::new(config, MemberTable::new(1), MrCacheTable::new());
    assert!(a.connects_to_peers());
    let mut config = NodeConfig::default();
    config.control.bootstrap = "seed".to_string();
    let b = ControlPlane::new(config, MemberTable::new(1), MrCacheTable::new());
    assert!(!b.connects_to_peers());
    let hello = a.hello();
    match ControlMsg::decode(&hello).unwrap() {
        ControlMsg::Hello(h) => assert_eq!(h.local_epoch, a.local_epoch()),
        _ => panic!("expected Hello"),
    }
}

#[test]
fn message_lengths_are_bounded() {
    assert_eq!(message_len([0, 0, 0, 0]), Some(1));
    assert_eq!(message_len([0, 0, 1, 2]), Some(259));
    let longest = (MAX_MESSAGE_LEN as u32).to_be_bytes();
    assert_eq!(message_len(longest), Some(MAX_MESSAGE_LEN + 1));
    assert_eq!(message_len((MAX_MESSAGE_LEN as u32 + 1).to_be_bytes()), None);
}

#[test]
fn waits_double_up_to_half_a_minute() {
    let mut delay = 1000;
    let mut seen = Vec::new();
    for _ in 0..6 {
        delay = next_retry_delay(delay);
        seen.push(delay);
    }
    assert_eq!(seen, vec![2000, 4000, 8000, 16000, 30000, 30000]);
}

#[test]
fn members_are_listed_once_and_reached_over_their_links() {
    let mut table = MemberTable::new(1);
    table.upsert(node(1, NodeState::Active, Some(10)));
    table.upsert(node(2, NodeState::Active, Some(20)));
    table.upsert(node(3, NodeState::Suspect, Some(30)));
    table.upsert(node(4, NodeState::Down, Some(40)));
    table.upsert(node(5, NodeState::Active, None));
    assert_eq!(table.active_peer_senders(), vec![(2, 20), (3, 30)]);
    assert_eq!(table.broadcast_senders(), vec![(2, 20)]);
    assert_eq!(table.active_peer_ids(), vec![2, 3, 5]);
    assert_eq!(table.local_node_id(), 1);

    // Bringing a node up to date keeps when it was last heard of
    let mut newer = node(2, NodeState::Active, Some(21));
    newer.epoch = 99;
    newer.last_seen = Some(500);
    table.upsert(newer);
    let member = table.get(2).unwrap();
    assert_eq!((member.epoch, member.last_seen), (99, Some(1)));
    assert_eq!(table.list().len(), 5);
    table.update_last_seen(2, 600);
    assert_eq!(table.get(2).unwrap().last_seen, Some(600));
    // Only an active node becomes suspect
    table.mark_suspect(4);
    assert_eq!(table.get(4).unwrap().state, NodeState::Down);
}
