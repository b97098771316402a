use unibus::member::{MemberTable, NodeInfo};
use unibus::types::NodeState;

#[test]
fn test_member_table_upsert() {
    let mut table = MemberTable::new(1);
    table.upsert(NodeInfo {
        node_id: 2,
        state: NodeState::Active,
        control_addr: "10.0.0.2:7900".to_string(),
        data_addr: "10.0.0.2:7901".to_string(),
        epoch: 100,
        initial_credits: 64,
        last_seen: None,
        tx: None,
    });
    let info = table.get(2).unwrap();
    assert_eq!(info.node_id, 2);
    assert_eq!(info.state, NodeState::Active);
}

#[test]
fn test_member_table_mark_down() {
    let mut table = MemberTable::new(1);
    table.upsert(NodeInfo {
        node_id: 2,
        state: NodeState::Active,
        control_addr: "10.0.0.2:7900".to_string(),
        data_addr: "10.0.0.2:7901".to_string(),
        epoch: 100,
        initial_credits: 64,
        last_seen: None,
        tx: None,
    });
    table.mark_down(2);
    let info = table.get(2).unwrap();
    assert_eq!(info.state, NodeState::Down);
}

#[test]
fn test_member_table_mark_suspect_then_active() {
    let mut table = MemberTable::new(1);
    table.upsert(NodeInfo {
        node_id: 2,
        state: NodeState::Active,
        control_addr: "".to_string(),
        data_addr: "".to_string(),
        epoch: 0,
        initial_credits: 0,
        last_seen: None,
        tx: None,
    });
    table.mark_suspect(2);
    assert_eq!(table.get(2).unwrap().state, NodeState::Suspect);
    table.mark_active(2);
    assert_eq!(table.get(2).unwrap().state, NodeState::Active);
}

#[test]
fn test_member_table_active_peers() {
    let mut table = MemberTable::new(1);
    table.upsert(NodeInfo {
        node_id: 2, state: NodeState::Active, control_addr: "".to_string(),
        data_addr: "".to_string(), epoch: 0, initial_credits: 0, last_seen: None, tx: None,
    });
    table.upsert(NodeInfo {
        node_id: 3, state: NodeState::Down, control_addr: "".to_string(),
        data_addr: "".to_string(), epoch: 0, initial_credits: 0, last_seen: None, tx: None,
    });
    let peers = table.active_peer_ids();
    assert_eq!(peers, vec![2]);
}
