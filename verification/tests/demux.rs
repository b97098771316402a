use unibus::demux::{Arrived, Demux};

fn forwarded(a: Arrived) -> Option<Vec<u8>> {
    match a {
        Arrived::Forward(p) => Some(p),
        Arrived::Announce => None,
    }
}

#[test]
fn packets_wait_in_order_until_their_peer_is_accepted() {
    let mut demux = Demux::new();
    assert!(forwarded(demux.arrived(1, vec![1])).is_none());
    assert!(forwarded(demux.arrived(2, vec![9])).is_none());
    assert!(forwarded(demux.arrived(1, vec![2])).is_none());
    assert_eq!(demux.accept(1), vec![vec![1], vec![2]]);
    assert_eq!(forwarded(demux.arrived(1, vec![3])), Some(vec![3]));
    assert!(demux.accept(1).is_empty());
    assert_eq!(demux.accept(2), vec![vec![9]]);
}

#[test]
fn a_dialed_peer_is_forwarded_to_and_a_closed_one_waits_again() {
    let mut demux = Demux::new();
    demux.dial(5);
    assert_eq!(forwarded(demux.arrived(5, vec![1])), Some(vec![1]));
    demux.close(5);
    assert!(forwarded(demux.arrived(5, vec![2])).is_none());
    demux.dial(5);
    assert_eq!(forwarded(demux.arrived(5, vec![3])), Some(vec![3]));
    // What waited before the call is still there for an accept
    assert_eq!(demux.accept(5), vec![vec![2]]);
}
