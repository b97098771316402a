//! What a change among the peers means for the connections to them.
use crate::member::{MemberTable, MembersView};
use crate::types::PeerChangeEvent;
use vstd::prelude::*;

verus! {

/// What to do about a change.
#[derive(Debug)]
pub enum PeerAction {
    Nothing,
    /// Start a session with the peer, and connect to it.
    Join { node_id: u16, epoch: u32, initial_credits: u32, data_addr: String },
    /// Connect to the peer again.
    Reconnect { node_id: u16, data_addr: String },
    /// Give up the connection to the peer.
    Disconnect { node_id: u16 },
}

/// Whether an action is the one for a change: a known peer that joins or recovers is
/// connected to, a lost one is given up, and nothing is done about a suspect. No peer has
/// the number 0.
pub open spec fn answers(event: PeerChangeEvent, m: MembersView, action: PeerAction) -> bool {
    match event {
        PeerChangeEvent::Joined { node_id, epoch } => if node_id != 0 && m.has(node_id) {
            action matches PeerAction::Join {
                node_id: n,
                epoch: e,
                initial_credits,
                data_addr,
            } && n == node_id && e == epoch && initial_credits == m.node(node_id).initial_credits
                && data_addr@ == m.node(node_id).data_addr
        } else {
            action is Nothing
        },
        PeerChangeEvent::Recovered { node_id } => if m.has(node_id) {
            action matches PeerAction::Reconnect { node_id: n, data_addr } && n == node_id
                && data_addr@ == m.node(node_id).data_addr
        } else {
            action is Nothing
        },
        PeerChangeEvent::Suspect { .. } => action is Nothing,
        PeerChangeEvent::Down { node_id, .. } => action matches PeerAction::Disconnect {
            node_id: n,
        } && n == node_id,
    }
}

/// An action concerns the peer that the change is about. A peer that went down is given up,
/// and no other is; one that joined is taken in with its epoch where it is listed and not
/// number 0, and one that recovered is connected to again where it is listed. A suspect peer
/// is left alone.
pub proof fn lemma_action_fits(event: PeerChangeEvent, m: MembersView, action: PeerAction, i: int)
    requires
        m.wf(),
        answers(event, m, action),
        0 <= i < m.nodes.len(),
    ensures
        action is Disconnect <==> event is Down,
        event matches PeerChangeEvent::Down { node_id, .. } ==> (action matches
            PeerAction::Disconnect { node_id: n } && n == node_id),
        event is Suspect ==> action is Nothing,
        event matches PeerChangeEvent::Joined { node_id, epoch } ==> {
            &&& node_id == 0 ==> action is Nothing
            &&& node_id != 0 && m.nodes[i].node_id == node_id ==> (action matches PeerAction::Join {
                node_id: n,
                epoch: e,
                initial_credits,
                data_addr,
            } && n == node_id && e == epoch && initial_credits == m.nodes[i].initial_credits
                && data_addr@ == m.nodes[i].data_addr)
        },
        event matches PeerChangeEvent::Recovered { node_id } ==> (m.nodes[i].node_id == node_id
            ==> (action matches PeerAction::Reconnect { node_id: n, data_addr } && n == node_id
            && data_addr@ == m.nodes[i].data_addr)),
{
    let id = m.nodes[i].node_id;
    assert(m.is_at(i, id));
    let k = choose|k: int| #[trigger] m.is_at(k, id);
    assert(m.is_at(k, id));
    assert(k == i);
}

/// What to do about a change among the peers.
pub fn peer_action(event: PeerChangeEvent, members: &MemberTable) -> (r: PeerAction)
    requires
        members.wf(),
    ensures
        answers(event, members@, r),
{
    match event {
        PeerChangeEvent::Joined { node_id, epoch } => {
            if node_id == 0 {
                return PeerAction::Nothing;
            }
            match members.get(node_id) {
                Some(node) => PeerAction::Join {
                    node_id,
                    epoch,
                    initial_credits: node.initial_credits,
                    data_addr: node.data_addr,
                },
                None => PeerAction::Nothing,
            }
        },
        PeerChangeEvent::Recovered { node_id } => match members.get(node_id) {
            Some(node) => PeerAction::Reconnect { node_id, data_addr: node.data_addr },
            None => PeerAction::Nothing,
        },
        PeerChangeEvent::Suspect { .. } => PeerAction::Nothing,
        PeerChangeEvent::Down { node_id, .. } => PeerAction::Disconnect { node_id },
    }
}

} // verus!
