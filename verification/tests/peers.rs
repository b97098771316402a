use unibus::member::{MemberTable, NodeInfo};
use unibus::peers::{peer_action, PeerAction};
use unibus::types::{NodeState, PeerChangeEvent};

fn members() -> MemberTable {
    let mut table = MemberTable::new(1);
    for node_id in [0, 2] {
        table.upsert(NodeInfo {
            node_id,
            state: NodeState::Active,
            control_addr: String::new(),
            data_addr: "10.0.0.2:7901".to_string(),
            epoch: 5,
            initial_credits: 16,
            last_seen: None,
            tx: None,
        });
    }
    table
}

#[test]
fn a_known_peer_that_joins_is_connected_to() {
    match peer_action(PeerChangeEvent::Joined { node_id: 2, epoch: 6 }, &members()) {
        PeerAction::Join { node_id, epoch, initial_credits, data_addr } => {
            assert_eq!((node_id, epoch, initial_credits), (2, 6, 16));
            assert_eq!(data_addr, "10.0.0.2:7901");
        }
        other => panic!("expected Join, got {:?}", other),
    }
    for node_id in [0, 3] {
        let action = peer_action(PeerChangeEvent::Joined { node_id, epoch: 6 }, &members());
        assert!(matches!(action, PeerAction::Nothing));
    }
}

#[test]
fn a_recovered_peer_is_connected_to_again() {
    match peer_action(PeerChangeEvent::Recovered { node_id: 2 }, &members()) {
        PeerAction::Reconnect { node_id, data_addr } => {
            assert_eq!((node_id, data_addr.as_str()), (2, "10.0.0.2:7901"));
        }
        other => panic!("expected Reconnect, got {:?}", other),
    }
    let unknown = peer_action(PeerChangeEvent::Recovered { node_id: 3 }, &members());
    assert!(matches!(unknown, PeerAction::Nothing));
}

#[test]
fn a_lost_peer_is_given_up_and_a_suspect_kept() {
    let lost = peer_action(PeerChangeEvent::Down { node_id: 9, epoch: 1 }, &members());
    assert!(matches!(lost, PeerAction::Disconnect { node_id: 9 }));
    let suspect = peer_action(PeerChangeEvent::Suspect { node_id: 2 }, &members());
    assert!(matches!(suspect, PeerAction::Nothing));
}
