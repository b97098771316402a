//! The control plane: membership, heartbeats, and what is known of remote regions.
use crate::addr::UbAddr;
use crate::be::be_value;
use crate::config::{HeartbeatConfig, NodeConfig};
use crate::member::{MemberTable, MembersView, NodeInfo, NodeView};
use crate::message::{
    frame_bytes, take_message, ControlMsg, ControlMsgView, HeartbeatPayload, HelloPayload,
    HelloPayloadView, MemberDownPayload, MrPublishPayload, MrRevokePayload,
};
use crate::mr::{MrCacheEntry, MrCacheTable, MrTable, MrTableView};
use crate::table::Table;
use crate::types::{NodeState, PeerChangeEvent};
use crate::wire::{byte_views, put_slice, Reader};
use vstd::prelude::*;

verus! {

/// The largest payload of a control message that is read from a connection.
pub const MAX_MESSAGE_LEN: usize = 1_000_000;

/// The longest wait between two attempts to connect to a peer, in milliseconds.
pub const MAX_RETRY_DELAY_MS: u64 = 30_000;

/// A message and the nodes that it is for, with the links that it goes over.
#[derive(Debug)]
pub struct Broadcast {
    pub message: Vec<u8>,
    pub targets: Vec<(u16, u64)>,
}

/// What to do about a control message: messages to send back, and a change to tell of.
#[derive(Debug)]
pub struct Outcome {
    pub replies: Vec<Vec<u8>>,
    pub event: Option<PeerChangeEvent>,
}

/// What a heartbeat brings about: a message to the peers, and changes to tell of.
#[derive(Debug)]
pub struct Beat {
    pub broadcast: Broadcast,
    pub events: Vec<PeerChangeEvent>,
}

/// A change of the local regions, to be made known to the peers.
#[derive(Debug)]
pub enum MrPublishEvent {
    Publish(MrPublishPayload),
    Revoke { owner_node: u16, mr_handle: u32 },
}

/// The bytes of a message.
pub open spec fn msg_bytes(m: ControlMsgView) -> Seq<u8> {
    frame_bytes(m.spec_type(), m.payload_bytes())
}

/// The announcement of a region.
pub open spec fn publish_of(t: MrTableView, h: u32) -> MrPublishPayload {
    let e = t.entries[h];
    MrPublishPayload {
        owner_node: e.base_ub_addr.fields().node_id,
        mr_handle: e.handle,
        base_ub_addr: e.base_ub_addr,
        len: e.len,
        perms: e.perms,
        device_kind: t.devices[e.device.0 as int].kind,
    }
}

/// Whether `handles` names every region once.
pub open spec fn names_all(handles: Seq<u32>, t: MrTableView) -> bool {
    handles.no_duplicates() && handles.to_set() == t.entries.dom()
}

/// The messages that announce the given regions.
pub open spec fn announcements(t: MrTableView, handles: Seq<u32>) -> Seq<Seq<u8>> {
    handles.map_values(|h: u32| msg_bytes(ControlMsgView::MrPublish(publish_of(t, h))))
}

/// Whether the messages announce every region of a table once.
pub open spec fn all_announced(t: MrTableView, msgs: Seq<Seq<u8>>) -> bool {
    exists|handles: Seq<u32>| #[trigger]
        names_all(handles, t) && msgs == announcements(t, handles)
}

/// Whether the messages announce every region once, where there is a table of them.
pub open spec fn announced(t: Option<MrTableView>, msgs: Seq<Seq<u8>>) -> bool {
    match t {
        Some(t) => all_announced(t, msgs),
        None => msgs.len() == 0,
    }
}

/// What is kept of an announced region.
pub open spec fn cached(p: MrPublishPayload) -> MrCacheEntry {
    MrCacheEntry {
        remote_mr_handle: p.mr_handle,
        owner_node: p.owner_node,
        base_ub_addr: p.base_ub_addr,
        len: p.len,
        perms: p.perms,
        device_kind: p.device_kind,
    }
}

/// A region is known to the peers as it is: its owner, handle, place, length, permissions
/// and device are those of the region, so that the same addresses lie in it.
pub proof fn lemma_known_as_it_is(t: MrTableView, h: u32, addr: UbAddr)
    ensures
        ({
            let e = t.entries[h];
            let c = cached(publish_of(t, h));
            &&& c.owner_node == e.base_ub_addr.fields().node_id
            &&& c.remote_mr_handle == e.handle
            &&& c.base_ub_addr == e.base_ub_addr
            &&& c.len == e.len
            &&& c.perms == e.perms
            &&& c.device_kind == t.devices[e.device.0 as int].kind
            &&& c.covers(addr) <==> e.covers(addr)
        }),
{
}

/// Every region of a table is announced, each by one message.
pub proof fn lemma_every_region_announced(t: MrTableView, msgs: Seq<Seq<u8>>, h: u32)
    requires
        announced(Some(t), msgs),
        t.entries.contains_key(h),
    ensures
        msgs.contains(msg_bytes(ControlMsgView::MrPublish(publish_of(t, h)))),
        msgs.len() == t.entries.dom().len(),
{
    let handles = choose|handles: Seq<u32>| #[trigger]
        names_all(handles, t) && msgs == announcements(t, handles);
    handles.unique_seq_to_set();
    assert(handles.to_set().contains(h));
    let k = choose|k: int| 0 <= k < handles.len() && handles[k] == h;
    assert(msgs[k] == msg_bytes(ControlMsgView::MrPublish(publish_of(t, h))));
}

/// Where there is no table nothing is announced.
pub proof fn lemma_nothing_announced(msgs: Seq<Seq<u8>>)
    requires
        announced(None, msgs),
    ensures
        msgs.len() == 0,
{
}

/// What a greeting tells of a node.
pub open spec fn greeted(h: HelloPayloadView, link: u64, now: u64) -> NodeView {
    NodeView {
        node_id: h.node_id,
        state: NodeState::Active,
        control_addr: Seq::empty(),
        data_addr: h.data_addr,
        epoch: h.local_epoch,
        initial_credits: h.initial_credits,
        last_seen: Some(now),
        tx: Some(link),
    }
}

/// Whether nothing was heard of a node for too long.
pub open spec fn overdue(n: NodeView, now: u64, hb: HeartbeatConfig) -> bool {
    n.last_seen matches Some(t) && now > t + hb.interval_ms * hb.fail_after
}

/// The next number of missed heartbeats.
pub open spec fn one_more(missed: Option<u32>) -> u32 {
    match missed {
        Some(c) => if c < u32::MAX {
            (c + 1) as u32
        } else {
            c
        },
        None => 1,
    }
}

/// What a heartbeat makes of a peer: its state, its missed heartbeats, and the changes to
/// tell of. A silent peer becomes suspect after `fail_after` heartbeats and goes down after
/// twice as many; a suspect one that is heard of again recovers.
pub open spec fn beat_node(n: NodeView, missed: Option<u32>, now: u64, hb: HeartbeatConfig) -> (
    NodeState,
    Option<u32>,
    Seq<PeerChangeEvent>,
) {
    let id = n.node_id;
    if n.state == NodeState::Down || n.last_seen is None {
        (n.state, missed, Seq::empty())
    } else if overdue(n, now, hb) {
        let c = one_more(missed);
        let suspected = if n.state == NodeState::Active && c >= hb.fail_after {
            seq![PeerChangeEvent::Suspect { node_id: id }]
        } else {
            Seq::empty()
        };
        if c >= 2 * hb.fail_after {
            (
                NodeState::Down,
                Some(c),
                suspected.push(PeerChangeEvent::Down { node_id: id, epoch: n.epoch }),
            )
        } else if suspected.len() > 0 {
            (NodeState::Suspect, Some(c), suspected)
        } else {
            (n.state, Some(c), Seq::empty())
        }
    } else if missed is Some && n.state == NodeState::Suspect {
        (NodeState::Active, None, seq![PeerChangeEvent::Recovered { node_id: id }])
    } else {
        (n.state, None, Seq::empty())
    }
}

/// What a heartbeat leaves behind.
#[verifier::ext_equal]
pub struct BeatView {
    pub nodes: Seq<NodeView>,
    pub missed: Map<u16, u32>,
    pub events: Seq<PeerChangeEvent>,
}

/// The missed heartbeats of a node.
pub open spec fn missed_by(missed: Map<u16, u32>, id: u16) -> Option<u32> {
    if missed.contains_key(id) {
        Some(missed[id])
    } else {
        None
    }
}

/// What a heartbeat makes of all nodes, one after the other. The local node is left alone.
pub open spec fn beat(
    nodes: Seq<NodeView>,
    local: u16,
    missed: Map<u16, u32>,
    now: u64,
    hb: HeartbeatConfig,
) -> BeatView
    decreases nodes.len(),
{
    if nodes.len() == 0 {
        BeatView { nodes: Seq::empty(), missed, events: Seq::empty() }
    } else {
        let b = beat(nodes.drop_last(), local, missed, now, hb);
        let n = nodes.last();
        if n.node_id == local {
            BeatView { nodes: b.nodes.push(n), ..b }
        } else {
            let (state, count, events) = beat_node(n, missed_by(b.missed, n.node_id), now, hb);
            BeatView {
                nodes: b.nodes.push(NodeView { state, ..n }),
                missed: match count {
                    Some(c) => b.missed.insert(n.node_id, c),
                    None => b.missed.remove(n.node_id),
                },
                events: b.events + events,
            }
        }
    }
}

/// A heartbeat changes nothing of the nodes but their states.
pub proof fn lemma_beat_nodes(
    nodes: Seq<NodeView>,
    local: u16,
    missed: Map<u16, u32>,
    now: u64,
    hb: HeartbeatConfig,
)
    ensures
        beat(nodes, local, missed, now, hb).nodes.len() == nodes.len(),
        forall|i: int|
            0 <= i < nodes.len() ==> {
                let after = #[trigger] beat(nodes, local, missed, now, hb).nodes[i];
                after == (NodeView { state: after.state, ..nodes[i] })
            },
        forall|i: int|
            0 <= i < nodes.len() && (nodes[i].node_id == local || nodes[i].state
                == NodeState::Down) ==> #[trigger] beat(nodes, local, missed, now, hb).nodes[i]
                == nodes[i],
    decreases nodes.len(),
{
    if nodes.len() > 0 {
        lemma_beat_nodes(nodes.drop_last(), local, missed, now, hb);
        let b = beat(nodes.drop_last(), local, missed, now, hb);
        assert forall|i: int| 0 <= i < nodes.len() implies {
            let after = #[trigger] beat(nodes, local, missed, now, hb).nodes[i];
            after == (NodeView { state: after.state, ..nodes[i] })
        } by {
            if i < nodes.len() - 1 {
                assert(b.nodes[i] == (NodeView {
                    state: b.nodes[i].state,
                    ..nodes.drop_last()[i]
                }));
            }
        }
        assert forall|i: int|
            0 <= i < nodes.len() && (nodes[i].node_id == local || nodes[i].state
                == NodeState::Down) implies #[trigger] beat(nodes, local, missed, now, hb).nodes[i]
            == nodes[i] by {
            if i < nodes.len() - 1 {
                assert(nodes.drop_last()[i] == nodes[i]);
                assert(b.nodes[i] == nodes[i]);
            }
        }
    }
}

/// A heartbeat judges every node by itself: each other node gets the state, the count and the
/// changes that it gives that node, whatever becomes of the rest. Of the local node nothing
/// changes.
pub proof fn lemma_beat_each(
    nodes: Seq<NodeView>,
    local: u16,
    missed: Map<u16, u32>,
    now: u64,
    hb: HeartbeatConfig,
    i: int,
)
    requires
        forall|a: int, b: int|
            0 <= a < b < nodes.len() ==> (#[trigger] nodes[a]).node_id != (
            #[trigger] nodes[b]).node_id,
        0 <= i < nodes.len(),
    ensures
        ({
            let n = nodes[i];
            let after = beat(nodes, local, missed, now, hb);
            let (state, count, events) = beat_node(n, missed_by(missed, n.node_id), now, hb);
            &&& after.nodes.len() == nodes.len()
            &&& n.node_id == local ==> after.nodes[i] == n && missed_by(after.missed, local)
                == missed_by(missed, local)
            &&& n.node_id != local ==> {
                &&& after.nodes[i].state == state
                &&& after.nodes[i].node_id == n.node_id
                &&& missed_by(after.missed, n.node_id) == count
                &&& forall|e: PeerChangeEvent| #[trigger]
                    events.contains(e) ==> after.events.contains(e)
            }
        }),
    decreases nodes.len(),
{
    let l = nodes.drop_last();
    let b = beat(l, local, missed, now, hb);
    let after = beat(nodes, local, missed, now, hb);
    assert forall|x: int, y: int| 0 <= x < y < l.len() implies (#[trigger] l[x]).node_id != (
    #[trigger] l[y]).node_id by {
        assert(nodes[x].node_id != nodes[y].node_id);
    }
    lemma_beat_nodes(l, local, missed, now, hb);
    lemma_beat_nodes(nodes, local, missed, now, hb);
    let n = nodes[i];
    let last = nodes.last();
    if i < l.len() {
        lemma_beat_each(l, local, missed, now, hb, i);
        assert(l[i] == n);
        assert(nodes[i].node_id != nodes[nodes.len() - 1].node_id);
        let events = beat_node(n, missed_by(missed, n.node_id), now, hb).2;
        if n.node_id != local {
            assert forall|e: PeerChangeEvent| #[trigger] events.contains(e) implies after.events.contains(
            e) by {
                assert(b.events.contains(e));
                let k = choose|k: int| 0 <= k < b.events.len() && b.events[k] == e;
                assert(after.events[k] == e);
            }
        }
    } else {
        lemma_beat_others(l, local, missed, now, hb, last.node_id);
        let events = beat_node(n, missed_by(missed, n.node_id), now, hb).2;
        if n.node_id != local {
            assert forall|e: PeerChangeEvent| #[trigger] events.contains(e) implies after.events.contains(
            e) by {
                let k = choose|k: int| 0 <= k < events.len() && events[k] == e;
                assert(after.events[b.events.len() + k] == e);
            }
        }
    }
}

/// The count of a node that is not among those judged stays.
proof fn lemma_beat_others(
    nodes: Seq<NodeView>,
    local: u16,
    missed: Map<u16, u32>,
    now: u64,
    hb: HeartbeatConfig,
    id: u16,
)
    requires
        forall|a: int| 0 <= a < nodes.len() ==> (#[trigger] nodes[a]).node_id != id,
    ensures
        missed_by(beat(nodes, local, missed, now, hb).missed, id) == missed_by(missed, id),
    decreases nodes.len(),
{
    if nodes.len() > 0 {
        let l = nodes.drop_last();
        assert forall|a: int| 0 <= a < l.len() implies (#[trigger] l[a]).node_id != id by {
            assert(nodes[a].node_id != id);
        }
        assert(nodes[nodes.len() - 1].node_id != id);
        lemma_beat_others(l, local, missed, now, hb, id);
    }
}

/// A change of a peer's state is told, and nothing is told without one: that it went down
/// with its epoch, that it became suspect, that it recovered.
pub proof fn lemma_changes_told(n: NodeView, missed: Option<u32>, now: u64, hb: HeartbeatConfig)
    requires
        0 < hb.fail_after,
    ensures
        ({
            let (state, count, events) = beat_node(n, missed, now, hb);
            let id = n.node_id;
            &&& events.contains(PeerChangeEvent::Down { node_id: id, epoch: n.epoch }) <==> n.state
                != NodeState::Down && state == NodeState::Down
            &&& n.state == NodeState::Active && state == NodeState::Suspect ==> events.contains(
                PeerChangeEvent::Suspect { node_id: id },
            )
            &&& events.contains(PeerChangeEvent::Suspect { node_id: id }) ==> n.state
                == NodeState::Active && state != NodeState::Active
            &&& events.contains(PeerChangeEvent::Recovered { node_id: id }) <==> n.state
                == NodeState::Suspect && state == NodeState::Active
            &&& n.state == NodeState::Down ==> events.len() == 0 && state == NodeState::Down
        }),
{
    let (state, count, events) = beat_node(n, missed, now, hb);
    let down = PeerChangeEvent::Down { node_id: n.node_id, epoch: n.epoch };
    let suspect = PeerChangeEvent::Suspect { node_id: n.node_id };
    let back = PeerChangeEvent::Recovered { node_id: n.node_id };
    if n.state != NodeState::Down && state == NodeState::Down {
        assert(events[events.len() - 1] == down);
    }
    if n.state == NodeState::Active && state == NodeState::Suspect {
        assert(events[0] == suspect);
    }
    if n.state == NodeState::Suspect && state == NodeState::Active {
        assert(events[0] == back);
    }
}

/// What successive heartbeats make of a peer: its state and its missed heartbeats.
pub open spec fn after_beats(n: NodeView, nows: Seq<u64>, hb: HeartbeatConfig) -> (
    NodeState,
    Option<u32>,
)
    decreases nows.len(),
{
    if nows.len() == 0 {
        (n.state, None)
    } else {
        let (state, missed) = after_beats(n, nows.drop_last(), hb);
        let b = beat_node(NodeView { state, ..n }, missed, nows.last(), hb);
        (b.0, b.1)
    }
}

/// An active peer of which nothing was heard for longer than `fail_after` intervals stays
/// active for fewer than `fail_after` heartbeats, is suspect from then on, and goes down with
/// the heartbeat that makes it twice as many.
pub proof fn lemma_goes_down(n: NodeView, seen: u64, nows: Seq<u64>, hb: HeartbeatConfig)
    requires
        n.state == NodeState::Active,
        n.last_seen == Some(seen),
        forall|i: int|
            0 <= i < nows.len() ==> #[trigger] nows[i] > seen + hb.interval_ms * hb.fail_after,
        0 < hb.fail_after,
        nows.len() < u32::MAX,
    ensures
        nows.len() < hb.fail_after ==> after_beats(n, nows, hb).0 == NodeState::Active,
        hb.fail_after <= nows.len() < 2 * hb.fail_after ==> after_beats(n, nows, hb).0
            == NodeState::Suspect,
        nows.len() >= 2 * hb.fail_after ==> after_beats(n, nows, hb).0 == NodeState::Down,
{
    lemma_silence(n, nows, hb);
}

/// A peer that was heard of no longer than `fail_after` intervals ago is neither suspected
/// nor taken down by a heartbeat; where it was suspect and had missed some it is active
/// again, and it starts with no missed heartbeats.
pub proof fn lemma_stays_up(
    n: NodeView,
    seen: u64,
    missed: Option<u32>,
    now: u64,
    hb: HeartbeatConfig,
)
    requires
        n.state != NodeState::Down,
        n.last_seen == Some(seen),
        now <= seen + hb.interval_ms * hb.fail_after,
    ensures
        n.state == NodeState::Active ==> beat_node(n, missed, now, hb).0 == NodeState::Active,
        n.state == NodeState::Suspect && missed is Some ==> beat_node(n, missed, now, hb).0
            == NodeState::Active,
        beat_node(n, missed, now, hb).1 is None,
{
}

/// An active peer that falls silent stays active for fewer than `fail_after` heartbeats, is
/// suspect from then on, and goes down with the heartbeat that makes it twice as many.
pub proof fn lemma_silence(n: NodeView, nows: Seq<u64>, hb: HeartbeatConfig)
    requires
        n.state == NodeState::Active,
        forall|i: int| 0 <= i < nows.len() ==> overdue(n, #[trigger] nows[i], hb),
        0 < hb.fail_after,
        nows.len() < u32::MAX,
    ensures
        nows.len() < hb.fail_after ==> after_beats(n, nows, hb).0 == NodeState::Active,
        hb.fail_after <= nows.len() < 2 * hb.fail_after ==> after_beats(n, nows, hb).0
            == NodeState::Suspect,
        nows.len() >= 2 * hb.fail_after ==> after_beats(n, nows, hb).0 == NodeState::Down,
        nows.len() < 2 * hb.fail_after ==> after_beats(n, nows, hb).1 == (if nows.len() == 0 {
            None::<u32>
        } else {
            Some(nows.len() as u32)
        }),
    decreases nows.len(),
{
    if nows.len() > 0 {
        let shorter = nows.drop_last();
        assert forall|i: int| 0 <= i < shorter.len() implies overdue(n, #[trigger] shorter[i], hb) by {
            assert(shorter[i] == nows[i]);
        }
        lemma_silence(n, shorter, hb);
        let (state, missed) = after_beats(n, shorter, hb);
        let m = NodeView { state, ..n };
        assert(nows.last() == nows[nows.len() - 1]);
        assert(overdue(m, nows.last(), hb) == overdue(n, nows.last(), hb));
    }
}

/// A peer that was heard of in time is not held against: no heartbeat makes it suspect or
/// takes it down, and a suspect peer that had missed some recovers.
pub proof fn lemma_heard(n: NodeView, missed: Option<u32>, now: u64, hb: HeartbeatConfig)
    requires
        !overdue(n, now, hb),
    ensures
        beat_node(n, missed, now, hb).0 == n.state || beat_node(n, missed, now, hb).0
            == NodeState::Active,
        n.state == NodeState::Suspect && n.last_seen is Some && missed is Some ==> beat_node(
            n,
            missed,
            now,
            hb,
        ).0 == NodeState::Active,
        forall|e: PeerChangeEvent| #[trigger]
            beat_node(n, missed, now, hb).2.contains(e) ==> e is Recovered,
{
}

/// What a `ControlPlane` holds.
#[verifier::ext_equal]
pub struct ControlView {
    pub config: NodeConfig,
    pub local_epoch: u32,
    pub members: MembersView,
    pub cache: Map<(u16, u32), MrCacheEntry>,
    /// Missed heartbeats of silent peers.
    pub missed: Map<u16, u32>,
}

impl ControlView {
    /// How this node greets others.
    pub open spec fn hello(self) -> HelloPayloadView {
        HelloPayloadView {
            node_id: self.config.node_id,
            version: 1,
            local_epoch: self.local_epoch,
            initial_credits: self.config.flow.initial_credits,
            data_addr: self.config.data.listen@,
        }
    }

    /// This node, as it stands in its own member table.
    pub open spec fn self_info(self, now: u64) -> NodeView {
        NodeView {
            node_id: self.config.node_id,
            state: NodeState::Active,
            control_addr: self.config.control.listen@,
            data_addr: self.config.data.listen@,
            epoch: self.local_epoch,
            initial_credits: self.config.flow.initial_credits,
            last_seen: Some(now),
            tx: None,
        }
    }

    /// Whether a message that came over a link leads to `after`, to the replies, and to a
    /// change to tell of.
    pub open spec fn processed(
        self,
        msg: ControlMsgView,
        t: Option<MrTableView>,
        link: u64,
        now: u64,
        after: Self,
        replies: Seq<Seq<u8>>,
        event: Option<PeerChangeEvent>,
    ) -> bool {
        match msg {
            ControlMsgView::Hello(h) => {
                &&& after == (ControlView {
                    members: self.members.with_node(greeted(h, link, now)),
                    ..self
                })
                &&& replies.len() > 0
                &&& replies[0] == msg_bytes(ControlMsgView::HelloAck(self.hello()))
                &&& announced(t, replies.skip(1))
                &&& event == Some(
                    PeerChangeEvent::Joined { node_id: h.node_id, epoch: h.local_epoch },
                )
            },
            ControlMsgView::HelloAck(h) => {
                &&& after == (ControlView {
                    members: self.members.with_node(greeted(h, link, now)),
                    ..self
                })
                &&& announced(t, replies)
                &&& event == Some(
                    PeerChangeEvent::Joined { node_id: h.node_id, epoch: h.local_epoch },
                )
            },
            ControlMsgView::Heartbeat(hb) => {
                &&& after == (ControlView {
                    members: self.members.with_seen(hb.node_id, now),
                    ..self
                })
                &&& replies == seq![
                    msg_bytes(
                        ControlMsgView::HeartbeatAck(
                            HeartbeatPayload {
                                node_id: self.config.node_id,
                                timestamp: hb.timestamp,
                            },
                        ),
                    ),
                ]
                &&& event is None
            },
            ControlMsgView::HeartbeatAck(hb) => {
                &&& after == (ControlView {
                    members: self.members.with_seen(hb.node_id, now),
                    ..self
                })
                &&& replies.len() == 0
                &&& event is None
            },
            ControlMsgView::MemberDown(md) => {
                &&& after == (ControlView {
                    members: self.members.with_state(md.node_id, NodeState::Down),
                    ..self
                })
                &&& replies.len() == 0
                &&& event == Some(
                    PeerChangeEvent::Down {
                        node_id: md.node_id,
                        epoch: if after.members.has(md.node_id) {
                            after.members.node(md.node_id).epoch
                        } else {
                            0
                        },
                    },
                )
            },
            ControlMsgView::MrPublish(p) => {
                &&& after == (ControlView {
                    cache: self.cache.insert((p.owner_node, p.mr_handle), cached(p)),
                    ..self
                })
                &&& replies.len() == 0
                &&& event is None
            },
            ControlMsgView::MrRevoke(p) => {
                &&& after == (ControlView {
                    cache: self.cache.remove((p.owner_node, p.mr_handle)),
                    ..self
                })
                &&& replies.len() == 0
                &&& event is None
            },
            _ => after == self && replies.len() == 0 && event is None,
        }
    }
}

impl ControlView {
    /// A node that greets, or answers a greeting, is listed as active from then on, with the
    /// epoch, the credits and the address that it told and the link that it came over. A
    /// greeting is answered first; the change is told.
    pub proof fn lemma_greeting(
        self,
        h: HelloPayloadView,
        answer: bool,
        t: Option<MrTableView>,
        link: u64,
        now: u64,
        after: Self,
        replies: Seq<Seq<u8>>,
        event: Option<PeerChangeEvent>,
    ) -> (i: int)
        requires
            self.members.wf(),
            self.processed(
                if answer {
                    ControlMsgView::HelloAck(h)
                } else {
                    ControlMsgView::Hello(h)
                },
                t,
                link,
                now,
                after,
                replies,
                event,
            ),
        ensures
            0 <= i < after.members.nodes.len(),
            after.members.nodes[i].node_id == h.node_id,
            after.members.nodes[i].state == NodeState::Active,
            after.members.nodes[i].epoch == h.local_epoch,
            after.members.nodes[i].initial_credits == h.initial_credits,
            after.members.nodes[i].data_addr == h.data_addr,
            after.members.nodes[i].tx == Some(link),
            event == Some(PeerChangeEvent::Joined { node_id: h.node_id, epoch: h.local_epoch }),
            after.cache == self.cache,
            after.missed == self.missed,
            !answer ==> replies.len() > 0 && replies[0] == msg_bytes(
                ControlMsgView::HelloAck(
                    HelloPayloadView {
                        node_id: self.config.node_id,
                        version: 1,
                        local_epoch: self.local_epoch,
                        initial_credits: self.config.flow.initial_credits,
                        data_addr: self.config.data.listen@,
                    },
                ),
            ),
    {
        let info = greeted(h, link, now);
        if self.members.has(h.node_id) {
            let i = choose|i: int| #[trigger] self.members.is_at(i, h.node_id);
            self.members.lemma_node_added(info, i);
            i
        } else {
            assert(after.members.nodes[self.members.nodes.len() as int] == info);
            self.members.nodes.len() as int
        }
    }

    /// An announced region is known from then on, in place of what was known under its owner
    /// and handle; a revoked one is not known any more. No other region is touched.
    pub proof fn lemma_regions_follow(
        self,
        p: MrPublishPayload,
        gone: MrRevokePayload,
        t: Option<MrTableView>,
        link: u64,
        now: u64,
        told: Self,
        revoked: Self,
        replies: Seq<Seq<u8>>,
        event: Option<PeerChangeEvent>,
        other: (u16, u32),
    )
        requires
            self.processed(ControlMsgView::MrPublish(p), t, link, now, told, replies, event),
            self.processed(ControlMsgView::MrRevoke(gone), t, link, now, revoked, replies, event),
        ensures
            told.cache.contains_key((p.owner_node, p.mr_handle)),
            ({
                let c = told.cache[(p.owner_node, p.mr_handle)];
                &&& c.owner_node == p.owner_node
                &&& c.remote_mr_handle == p.mr_handle
                &&& c.base_ub_addr == p.base_ub_addr
                &&& c.len == p.len
                &&& c.perms == p.perms
                &&& c.device_kind == p.device_kind
            }),
            !revoked.cache.contains_key((gone.owner_node, gone.mr_handle)),
            other != (p.owner_node, p.mr_handle) ==> told.cache.contains_key(other)
                == self.cache.contains_key(other) && told.cache[other] == self.cache[other],
            other != (gone.owner_node, gone.mr_handle) ==> revoked.cache.contains_key(other)
                == self.cache.contains_key(other) && revoked.cache[other] == self.cache[other],
            told.members == self.members,
            revoked.members == self.members,
    {
    }

    /// A heartbeat and its answer set when their node was last heard of, and the heartbeat is
    /// answered with its own time; the notice that a node is down takes it down. No other node
    /// is touched.
    pub proof fn lemma_members_follow(
        self,
        beat: HeartbeatPayload,
        down: MemberDownPayload,
        t: Option<MrTableView>,
        link: u64,
        now: u64,
        heard: Self,
        lost: Self,
        replies: Seq<Seq<u8>>,
        nothing: Seq<Seq<u8>>,
        event: Option<PeerChangeEvent>,
        change: Option<PeerChangeEvent>,
        i: int,
    )
        requires
            self.processed(ControlMsgView::Heartbeat(beat), t, link, now, heard, replies, event),
            self.processed(ControlMsgView::MemberDown(down), t, link, now, lost, nothing, change),
            0 <= i < self.members.nodes.len(),
        ensures
            ({
                let n = self.members.nodes[i];
                &&& heard.members.nodes[i].state == n.state
                &&& n.node_id == beat.node_id ==> heard.members.nodes[i].last_seen == Some(now)
                &&& n.node_id != beat.node_id ==> heard.members.nodes[i] == n
                &&& n.node_id == down.node_id ==> lost.members.nodes[i].state == NodeState::Down
                &&& n.node_id != down.node_id ==> lost.members.nodes[i] == n
                &&& change matches Some(PeerChangeEvent::Down { node_id, epoch }) && node_id
                    == down.node_id
                &&& self.members.wf() && n.node_id == down.node_id ==> change == Some(
                    PeerChangeEvent::Down { node_id: n.node_id, epoch: n.epoch },
                )
            }),
            event is None,
            nothing.len() == 0,
            replies.len() == 1,
            replies[0] == msg_bytes(
                ControlMsgView::HeartbeatAck(
                    HeartbeatPayload { node_id: self.config.node_id, timestamp: beat.timestamp },
                ),
            ),
    {
        self.members.lemma_one_member(beat.node_id, NodeState::Down, now, i);
        self.members.lemma_one_member(down.node_id, NodeState::Down, now, i);
        let after = lost.members;
        if self.members.nodes[i].node_id == down.node_id && self.members.wf() {
            assert(after.is_at(i, down.node_id));
            let k = choose|k: int| #[trigger] after.is_at(k, down.node_id);
            assert(after.is_at(k, down.node_id));
            assert(self.members.nodes[k].node_id == down.node_id);
            assert(k == i);
        }
    }
}

/// `rand::random`: any number. Nothing is claimed of it.
#[verifier::external_body]
fn random_epoch() -> (r: u32) {
    rand::random::<u32>()
}

/// The control plane of a node.
pub struct ControlPlane {
    config: NodeConfig,
    members: MemberTable,
    mr_cache: MrCacheTable,
    local_epoch: u32,
    missed: Table<u32>,
}

impl View for ControlPlane {
    type V = ControlView;

    closed spec fn view(&self) -> ControlView {
        ControlView {
            config: self.config,
            local_epoch: self.local_epoch,
            members: self.members@,
            cache: self.mr_cache@,
            missed: Map::new(
                |k: u16| self.missed@.contains_key(k as u128),
                |k: u16| self.missed@[k as u128],
            ),
        }
    }
}

impl ControlPlane {
    pub closed spec fn wf(&self) -> bool {
        self.members.wf() && self.mr_cache.wf() && self.missed.wf()
    }

    /// A control plane with an epoch picked at random.
    pub fn new(config: NodeConfig, members: MemberTable, mr_cache: MrCacheTable) -> (r: Self)
        requires
            members.wf(),
            mr_cache.wf(),
        ensures
            r.wf(),
            r@ == (ControlView {
                config,
                local_epoch: r@.local_epoch,
                members: members@,
                cache: mr_cache@,
                missed: Map::empty(),
            }),
    {
        Self::with_epoch(config, members, mr_cache, random_epoch())
    }

    /// A control plane with the given epoch.
    pub fn with_epoch(
        config: NodeConfig,
        members: MemberTable,
        mr_cache: MrCacheTable,
        local_epoch: u32,
    ) -> (r: Self)
        requires
            members.wf(),
            mr_cache.wf(),
        ensures
            r.wf(),
            r@ == (ControlView {
                config,
                local_epoch,
                members: members@,
                cache: mr_cache@,
                missed: Map::empty(),
            }),
    {
        let r = ControlPlane { config, members, mr_cache, local_epoch, missed: Table::new() };
        assert(r@.missed =~= Map::empty());
        r
    }

    pub fn local_epoch(&self) -> (r: u32)
        ensures
            r == self@.local_epoch,
    {
        self.local_epoch
    }

    pub fn member_table(&self) -> (r: &MemberTable)
        requires
            self.wf(),
        ensures
            r.wf(),
            r@ == self@.members,
    {
        &self.members
    }

    pub fn mr_cache(&self) -> (r: &MrCacheTable)
        requires
            self.wf(),
        ensures
            r.wf(),
            r@ == self@.cache,
    {
        &self.mr_cache
    }

    /// Whether the configured peers are to be connected to.
    pub fn connects_to_peers(&self) -> (r: bool)
        ensures
            r == (self@.config.control.bootstrap@ == "static"@),
    {
        let want = String::from_str("static");
        self.config.control.bootstrap == want
    }

    /// Enters this node into its member table.
    pub fn register_self(&mut self, now: u64)
        requires
            old(self).wf(),
        ensures
            final(self).wf(),
            final(self)@ == (ControlView {
                members: old(self)@.members.with_node(old(self)@.self_info(now)),
                ..old(self)@
            }),
    {
        let info = NodeInfo {
            node_id: self.config.node_id,
            state: NodeState::Active,
            control_addr: self.config.control.listen.clone(),
            data_addr: self.config.data.listen.clone(),
            epoch: self.local_epoch,
            initial_credits: self.config.flow.initial_credits,
            last_seen: Some(now),
            tx: None,
        };
        self.members.upsert(info);
        assert(self@.missed =~= old(self)@.missed);
    }

    fn hello_payload(&self) -> (r: HelloPayload)
        ensures
            r@ == self@.hello(),
    {
        HelloPayload {
            node_id: self.config.node_id,
            version: 1,
            local_epoch: self.local_epoch,
            initial_credits: self.config.flow.initial_credits,
            data_addr: self.config.data.listen.clone(),
        }
    }

    /// The greeting that opens a connection.
    pub fn hello(&self) -> (r: Vec<u8>)
        ensures
            r@ == msg_bytes(ControlMsgView::Hello(self@.hello())),
    {
        ControlMsg::Hello(self.hello_payload()).to_vec()
    }

    /// How a change of the local regions is made known: the message, to every peer that is
    /// not down.
    pub fn announce(&self, event: MrPublishEvent) -> (r: Broadcast)
        ensures
            r.targets@ == self@.members.peer_links(),
            r.message@ == msg_bytes(
                match event {
                    MrPublishEvent::Publish(p) => ControlMsgView::MrPublish(p),
                    MrPublishEvent::Revoke { owner_node, mr_handle } => ControlMsgView::MrRevoke(
                        MrRevokePayload { owner_node, mr_handle },
                    ),
                },
            ),
    {
        let msg = match event {
            MrPublishEvent::Publish(p) => ControlMsg::MrPublish(p),
            MrPublishEvent::Revoke { owner_node, mr_handle } => ControlMsg::MrRevoke(
                MrRevokePayload { owner_node, mr_handle },
            ),
        };
        Broadcast { message: msg.to_vec(), targets: self.members.active_peer_senders() }
    }

    /// The farewell of a node that shuts down, to every active peer.
    pub fn shutdown(&self) -> (r: Broadcast)
        ensures
            r.targets@ == self@.members.active_links(),
            r.message@ == msg_bytes(
                ControlMsgView::MemberDown(
                    MemberDownPayload { node_id: self@.config.node_id, reason: 0 },
                ),
            ),
    {
        let msg = ControlMsg::MemberDown(
            MemberDownPayload { node_id: self.config.node_id, reason: 0 },
        );
        Broadcast { message: msg.to_vec(), targets: self.members.broadcast_senders() }
    }

    /// Processes a message that came over a link.
    pub fn process_control_message(
        &mut self,
        msg: ControlMsg,
        mr_table: Option<&MrTable>,
        link: u64,
        now: u64,
    ) -> (r: Outcome)
        requires
            old(self).wf(),
            mr_table matches Some(t) ==> t.wf(),
        ensures
            final(self).wf(),
            old(self)@.processed(
                msg@,
                match mr_table {
                    Some(t) => Some(t@),
                    None => None,
                },
                link,
                now,
                final(self)@,
                byte_views(r.replies@),
                r.event,
            ),
    {
        match msg {
            ControlMsg::Hello(h) => {
                let node_id: u16 = h.node_id;
                let epoch: u32 = h.local_epoch;
                self.members.upsert(greeting_info(h, link, now));
                assert(self@.missed =~= old(self)@.missed);
                let mut replies: Vec<Vec<u8>> = Vec::new();
                replies.push(ControlMsg::HelloAck(self.hello_payload()).to_vec());
                let mut mrs = existing_mrs(mr_table);
                let ghost told = mrs@;
                replies.append(&mut mrs);
                proof {
                    let all = byte_views(replies@);
                    assert(all.skip(1) =~= byte_views(told));
                }
                Outcome { replies, event: Some(PeerChangeEvent::Joined { node_id, epoch }) }
            },
            ControlMsg::HelloAck(h) => {
                let node_id: u16 = h.node_id;
                let epoch: u32 = h.local_epoch;
                self.members.upsert(greeting_info(h, link, now));
                assert(self@.missed =~= old(self)@.missed);
                let replies = existing_mrs(mr_table);
                Outcome { replies, event: Some(PeerChangeEvent::Joined { node_id, epoch }) }
            },
            ControlMsg::Heartbeat(hb) => {
                self.members.update_last_seen(hb.node_id, now);
                assert(self@.missed =~= old(self)@.missed);
                let ack = ControlMsg::HeartbeatAck(
                    HeartbeatPayload { node_id: self.config.node_id, timestamp: hb.timestamp },
                );
                let mut replies: Vec<Vec<u8>> = Vec::new();
                replies.push(ack.to_vec());
                assert(byte_views(replies@) =~= seq![msg_bytes(ack@)]);
                Outcome { replies, event: None }
            },
            ControlMsg::HeartbeatAck(hb) => {
                self.members.update_last_seen(hb.node_id, now);
                assert(self@.missed =~= old(self)@.missed);
                Outcome { replies: Vec::new(), event: None }
            },
            ControlMsg::MemberDown(md) => {
                self.members.mark_down(md.node_id);
                assert(self@.missed =~= old(self)@.missed);
                let epoch: u32 = match self.members.get(md.node_id) {
                    Some(n) => n.epoch,
                    None => 0,
                };
                Outcome {
                    replies: Vec::new(),
                    event: Some(PeerChangeEvent::Down { node_id: md.node_id, epoch }),
                }
            },
            ControlMsg::MrPublish(mr) => {
                let entry = MrCacheEntry {
                    remote_mr_handle: mr.mr_handle,
                    owner_node: mr.owner_node,
                    base_ub_addr: mr.base_ub_addr,
                    len: mr.len,
                    perms: mr.perms,
                    device_kind: mr.device_kind,
                };
                self.mr_cache.insert(entry);
                assert(self@.missed =~= old(self)@.missed);
                Outcome { replies: Vec::new(), event: None }
            },
            ControlMsg::MrRevoke(revoke) => {
                self.mr_cache.remove(revoke.owner_node, revoke.mr_handle);
                assert(self@.missed =~= old(self)@.missed);
                Outcome { replies: Vec::new(), event: None }
            },
            _ => Outcome { replies: Vec::new(), event: None },
        }
    }

    /// Processes the bytes of a message that came over a link: the length prefix, and type
    /// and payload. Bytes that are no message are ignored.
    pub fn handle_message(
        &mut self,
        prefix: &[u8],
        body: &[u8],
        mr_table: Option<&MrTable>,
        link: u64,
        now: u64,
    ) -> (r: Outcome)
        requires
            old(self).wf(),
            mr_table matches Some(t) ==> t.wf(),
        ensures
            final(self).wf(),
            match take_message(prefix@ + body@) {
                Ok(msg) => old(self)@.processed(
                    msg,
                    match mr_table {
                        Some(t) => Some(t@),
                        None => None,
                    },
                    link,
                    now,
                    final(self)@,
                    byte_views(r.replies@),
                    r.event,
                ),
                Err(_) => final(self)@ == old(self)@ && r.replies@.len() == 0 && r.event is None,
            },
    {
        let mut full: Vec<u8> = Vec::new();
        put_slice(&mut full, prefix);
        put_slice(&mut full, body);
        assert(full@ =~= prefix@ + body@);
        match ControlMsg::decode(full.as_slice()) {
            Ok(msg) => self.process_control_message(msg, mr_table, link, now),
            Err(_) => Outcome { replies: Vec::new(), event: None },
        }
    }

    fn count_missed(&self, node_id: u16) -> (r: Option<u32>)
        requires
            self.wf(),
        ensures
            r == missed_by(self@.missed, node_id),
    {
        match self.missed.get(node_id as u128) {
            Some(c) => Some(*c),
            None => None,
        }
    }

    /// Sends a heartbeat to the peers that are not down, and looks for peers that have
    /// fallen silent or are heard of again.
    pub fn heartbeat(&mut self, now: u64) -> (r: Beat)
        requires
            old(self).wf(),
        ensures
            final(self).wf(),
            r.broadcast.targets@ == old(self)@.members.peer_links(),
            r.broadcast.message@ == msg_bytes(
                ControlMsgView::Heartbeat(
                    HeartbeatPayload { node_id: old(self)@.members.local, timestamp: now },
                ),
            ),
            ({
                let b = beat(
                    old(self)@.members.nodes,
                    old(self)@.members.local,
                    old(self)@.missed,
                    now,
                    old(self)@.config.heartbeat,
                );
                &&& r.events@ == b.events
                &&& final(self)@ == (ControlView {
                    members: MembersView { nodes: b.nodes, ..old(self)@.members },
                    missed: b.missed,
                    ..old(self)@
                })
            }),
    {
        let local: u16 = self.members.local_node_id();
        let msg = ControlMsg::Heartbeat(HeartbeatPayload { node_id: local, timestamp: now });
        let broadcast = Broadcast {
            message: msg.to_vec(),
            targets: self.members.active_peer_senders(),
        };
        let interval_ms: u64 = self.config.heartbeat.interval_ms;
        let fail_after: u32 = self.config.heartbeat.fail_after;
        assert(interval_ms * fail_after <= 0xFFFF_FFFF_FFFF_FFFF * 0xFFFF_FFFF) by (nonlinear_arith)
            requires
                interval_ms <= 0xFFFF_FFFF_FFFF_FFFF,
                fail_after <= 0xFFFF_FFFF,
        ;
        let patience: u128 = interval_ms as u128 * fail_after as u128;
        let nodes = self.members.list();
        let mut events: Vec<PeerChangeEvent> = Vec::new();
        let mut i: usize = 0;
        let ghost all = self@.members.nodes;
        let ghost hb = self@.config.heartbeat;
        let ghost first = self@;
        proof {
            self.members.lemma_wf();
            assert(nodes@.map_values(|n: NodeInfo| n@).len() == all.len());
            assert forall|j: int| 0 <= j < all.len() implies (#[trigger] nodes@[j])@
                == all[j].stripped() by {
                assert(nodes@.map_values(|n: NodeInfo| n@)[j] == all[j].stripped());
            }
            assert(all.take(0) =~= Seq::empty());
            assert(Seq::<NodeView>::empty() + all.skip(0) =~= all);
            assert(patience == interval_ms * fail_after);
        }
        while i < nodes.len()
            invariant
                i <= nodes@.len(),
                nodes@.len() == all.len(),
                forall|j: int| 0 <= j < all.len() ==> (#[trigger] nodes@[j])@ == all[j].stripped(),
                first.members.wf(),
                all == first.members.nodes,
                local == first.members.local,
                hb == first.config.heartbeat,
                hb.interval_ms == interval_ms,
                hb.fail_after == fail_after,
                patience == interval_ms * fail_after,
                patience <= 0xFFFF_FFFF_FFFF_FFFF * 0xFFFF_FFFF,
                self.wf(),
                ({
                    let b = beat(all.take(i as int), local, first.missed, now, hb);
                    &&& events@ == b.events
                    &&& self@ == (ControlView {
                        members: MembersView { nodes: b.nodes + all.skip(i as int), ..first.members },
                        missed: b.missed,
                        ..first
                    })
                }),
            decreases nodes@.len() - i,
        {
            let node = &nodes[i];
            let ghost n = all[i as int];
            let ghost before = *self;
            let ghost b = beat(all.take(i as int), local, first.missed, now, hb);
            proof {
                self.members.lemma_wf();
                lemma_beat_nodes(all.take(i as int), local, first.missed, now, hb);
                assert(all.take(i + 1).drop_last() =~= all.take(i as int));
                assert(all.take(i + 1).last() == n);
                assert(self@.members.nodes[i as int] == n);
                assert(self@.members.is_at(i as int, n.node_id));
            }
            if node.node_id != local && node.state != NodeState::Down {
                if let Some(last_seen) = node.last_seen {
                    if now as u128 > last_seen as u128 + patience {
                        let count: u32 = match self.count_missed(node.node_id) {
                            Some(c) => c.saturating_add(1),
                            None => 1,
                        };
                        self.missed.insert(node.node_id as u128, count);
                        proof {
                            assert(self@.missed =~= before@.missed.insert(n.node_id, count));
                        }
                        if count >= fail_after {
                            if node.state == NodeState::Active {
                                self.members.mark_suspect(node.node_id);
                                events.push(PeerChangeEvent::Suspect { node_id: node.node_id });
                                proof {
                                    lemma_one_changed(
                                        before@.members,
                                        i as int,
                                        n.node_id,
                                        |m: NodeView|
                                            if m.state == NodeState::Active {
                                                NodeView { state: NodeState::Suspect, ..m }
                                            } else {
                                                m
                                            },
                                    );
                                    assert(self@.missed =~= before@.missed.insert(
                                        n.node_id,
                                        count,
                                    ));
                                }
                            }
                            if count as u64 >= fail_after as u64 * 2 {
                                let ghost mid = self@.members;
                                proof {
                                    self.members.lemma_wf();
                                }
                                self.members.mark_down(node.node_id);
                                events.push(
                                    PeerChangeEvent::Down {
                                        node_id: node.node_id,
                                        epoch: node.epoch,
                                    },
                                );
                                proof {
                                    assert(mid.is_at(i as int, n.node_id));
                                    lemma_one_changed(
                                        mid,
                                        i as int,
                                        n.node_id,
                                        |m: NodeView| NodeView { state: NodeState::Down, ..m },
                                    );
                                    assert(self@.missed =~= before@.missed.insert(
                                        n.node_id,
                                        count,
                                    ));
                                }
                            }
                        }
                    } else {
                        let had = self.missed.remove(node.node_id as u128);
                        proof {
                            assert(self@.missed =~= before@.missed.remove(n.node_id));
                        }
                        if had.is_some() && node.state == NodeState::Suspect {
                            self.members.mark_active(node.node_id);
                            events.push(PeerChangeEvent::Recovered { node_id: node.node_id });
                            proof {
                                lemma_one_changed(
                                    before@.members,
                                    i as int,
                                    n.node_id,
                                    |m: NodeView| NodeView { state: NodeState::Active, ..m },
                                );
                                assert(self@.missed =~= before@.missed.remove(n.node_id));
                            }
                        }
                    }
                }
            }
            proof {
                let c = beat(all.take(i + 1), local, first.missed, now, hb);
                assert(events@ =~= c.events);
                assert(self@.missed =~= c.missed);
                assert(self@.members.nodes =~= c.nodes + all.skip(i + 1));
            }
            i = i + 1;
        }
        proof {
            assert(all.take(i as int) =~= all);
            let b = beat(all, local, first.missed, now, hb);
            assert(b.nodes + all.skip(i as int) =~= b.nodes);
        }
        Beat { broadcast, events }
    }
}

/// Changing a node changes the one position that it stands at.
proof fn lemma_one_changed(m: MembersView, i: int, id: u16, f: spec_fn(NodeView) -> NodeView)
    requires
        m.wf(),
        m.is_at(i, id),
    ensures
        m.with(id, f).nodes == m.nodes.update(i, f(m.nodes[i])),
{
    assert forall|j: int| 0 <= j < m.nodes.len() && j != i implies (#[trigger] m.nodes[j]).node_id
        != id by {
        if j < i {
            assert(m.nodes[j].node_id != m.nodes[i].node_id);
        } else {
            assert(m.nodes[i].node_id != m.nodes[j].node_id);
        }
    }
    assert(m.with(id, f).nodes =~= m.nodes.update(i, f(m.nodes[i])));
}

fn greeting_info(h: HelloPayload, link: u64, now: u64) -> (r: NodeInfo)
    ensures
        r@ == greeted(h@, link, now),
{
    NodeInfo {
        node_id: h.node_id,
        state: NodeState::Active,
        control_addr: String::new(),
        data_addr: h.data_addr,
        epoch: h.local_epoch,
        initial_credits: h.initial_credits,
        last_seen: Some(now),
        tx: Some(link),
    }
}

/// The messages that announce the local regions to a new peer.
pub fn existing_mrs(mr_table: Option<&MrTable>) -> (r: Vec<Vec<u8>>)
    requires
        mr_table matches Some(t) ==> t.wf(),
    ensures
        announced(
            match mr_table {
                Some(t) => Some(t@),
                None => None,
            },
            byte_views(r@),
        ),
{
    let mut out: Vec<Vec<u8>> = Vec::new();
    let t = match mr_table {
        Some(t) => t,
        None => return out,
    };
    let entries = t.list();
    let ghost handles = Seq::new(entries@.len(), |i: int| entries@[i].handle);
    let mut i: usize = 0;
    while i < entries.len()
        invariant
            i <= entries@.len(),
            t.wf(),
            forall|j: int|
                0 <= j < entries@.len() ==> t@.entries.contains_key((#[trigger] entries@[j]).handle)
                    && t@.entries[entries@[j].handle] == entries@[j],
            out@.len() == i,
            forall|j: int|
                0 <= j < i ==> (#[trigger] out@[j])@ == msg_bytes(
                    ControlMsgView::MrPublish(publish_of(t@, entries@[j].handle)),
                ),
        decreases entries@.len() - i,
    {
        let e = &entries[i];
        proof {
            t.lemma_view();
            assert(t@.entry_ok(entries@[i as int].handle));
        }
        let msg = ControlMsg::MrPublish(
            MrPublishPayload {
                owner_node: e.base_ub_addr.node_id(),
                mr_handle: e.handle,
                base_ub_addr: e.base_ub_addr,
                len: e.len,
                perms: e.perms,
                device_kind: t.device_kind(e.device),
            },
        );
        out.push(msg.to_vec());
        i = i + 1;
    }
    proof {
        t.lemma_view();
        assert(handles.no_duplicates());
        handles.unique_seq_to_set();
        assert(handles.to_set().subset_of(t@.entries.dom()));
        vstd::set_lib::lemma_subset_equality(handles.to_set(), t@.entries.dom());
        assert(names_all(handles, t@));
        assert(byte_views(out@) =~= announcements(t@, handles));
        assert(all_announced(t@, byte_views(out@)));
    }
    out
}

/// How many bytes follow the length prefix of a message: type and payload. `None` where the
/// payload would be too large.
pub fn message_len(prefix: [u8; 4]) -> (r: Option<usize>)
    ensures
        r == (if be_value(prefix@) > MAX_MESSAGE_LEN {
            None::<usize>
        } else {
            Some((1 + be_value(prefix@)) as usize)
        }),
{
    let mut cur = Reader::new(prefix.as_slice());
    let len: u32 = match cur.u32() {
        Ok(v) => v,
        Err(_) => 0,
    };
    assert(prefix@.take(4) =~= prefix@);
    if len as usize > MAX_MESSAGE_LEN {
        None
    } else {
        Some(1 + len as usize)
    }
}

/// The wait before the next attempt to connect: twice the last one, up to the longest.
pub fn next_retry_delay(delay_ms: u64) -> (r: u64)
    ensures
        r == (if 2 * delay_ms > MAX_RETRY_DELAY_MS {
            MAX_RETRY_DELAY_MS as int
        } else {
            2 * delay_ms
        }),
{
    if delay_ms > MAX_RETRY_DELAY_MS / 2 {
        MAX_RETRY_DELAY_MS
    } else {
        delay_ms * 2
    }
}

} // verus!
