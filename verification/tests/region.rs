use unibus::region::RegionTable;
use unibus::types::{RegionId, RegionInfo, RegionState};

fn make_region(region_id: u64, home_node_id: u16, state: RegionState) -> RegionInfo {
    RegionInfo {
        region_id: RegionId(region_id),
        home_node_id,
        device_id: 0,
        mr_handle: 1,
        base_offset: 0,
        len: 4096,
        epoch: 0,
        state,
        local_mr_handle: None,
    }
}

#[test]
fn test_region_table_insert_lookup_remove() {
    let mut table = RegionTable::new();
    let info = make_region(1, 1, RegionState::Home);
    table.insert(info.clone());

    let found = table.lookup(RegionId(1)).unwrap();
    assert_eq!(found.region_id, RegionId(1));
    assert_eq!(found.home_node_id, 1);
    assert_eq!(found.state, RegionState::Home);

    let removed = table.remove(RegionId(1)).unwrap();
    assert_eq!(removed.region_id, RegionId(1));
    assert!(table.lookup(RegionId(1)).is_none());
}

#[test]
fn test_region_table_set_state() {
    let mut table = RegionTable::new();
    table.insert(make_region(1, 1, RegionState::Home));

    assert!(table.set_state(RegionId(1), RegionState::Shared(1)));
    let found = table.lookup(RegionId(1)).unwrap();
    assert_eq!(found.state, RegionState::Shared(1));

    assert!(table.set_state(RegionId(1), RegionState::Invalid));
    let found = table.lookup(RegionId(1)).unwrap();
    assert_eq!(found.state, RegionState::Invalid);

    // Non-existent region
    assert!(!table.set_state(RegionId(999), RegionState::Home));
}

#[test]
fn test_region_table_set_epoch() {
    let mut table = RegionTable::new();
    table.insert(make_region(1, 1, RegionState::Shared(0)));

    assert!(table.set_epoch(RegionId(1), 5));
    assert_eq!(table.lookup(RegionId(1)).unwrap().epoch, 5);

    assert!(!table.set_epoch(RegionId(999), 1));
}

#[test]
fn test_region_table_list_by_state() {
    let mut table = RegionTable::new();
    table.insert(make_region(1, 1, RegionState::Home));
    table.insert(make_region(2, 2, RegionState::Shared(1)));
    table.insert(make_region(3, 1, RegionState::Invalid));
    table.insert(make_region(4, 2, RegionState::Home));

    let home = table.list_by_state(RegionState::Home);
    assert_eq!(home.len(), 2);

    let shared = table.list_by_state(RegionState::Shared(1));
    assert_eq!(shared.len(), 1);

    let invalid = table.list_by_state(RegionState::Invalid);
    assert_eq!(invalid.len(), 1);
}

#[test]
fn test_region_table_count_by_state() {
    let mut table = RegionTable::new();
    table.insert(make_region(1, 1, RegionState::Home));
    table.insert(make_region(2, 2, RegionState::Shared(1)));
    table.insert(make_region(3, 1, RegionState::Invalid));
    table.insert(make_region(4, 2, RegionState::Home));
    table.insert(make_region(5, 2, RegionState::Shared(2)));

    let (home, shared, invalid) = table.count_by_state();
    assert_eq!(home, 2);
    assert_eq!(shared, 2);
    assert_eq!(invalid, 1);
}

#[test]
fn test_region_state_transitions() {
    // Invalid -> Home (first allocation)
    let mut state = RegionState::Invalid;
    assert_eq!(state, RegionState::Invalid);
    state = RegionState::Home;
    assert_eq!(state, RegionState::Home);

    // Home -> Invalid (free)
    state = RegionState::Invalid;
    assert_eq!(state, RegionState::Invalid);

    // Invalid -> Shared(epoch) (FETCH)
    state = RegionState::Shared(1);
    assert_eq!(state, RegionState::Shared(1));

    // Shared -> Invalid (invalidate)
    state = RegionState::Invalid;
    assert_eq!(state, RegionState::Invalid);
}
