//! The members of the pod, as a node sees them.
use crate::types::NodeState;
use vstd::prelude::*;

verus! {

/// What is known of a node. Control messages go to it over the link `tx`.
#[derive(Debug, Clone)]
pub struct NodeInfo {
    pub node_id: u16,
    pub state: NodeState,
    pub control_addr: String,
    pub data_addr: String,
    pub epoch: u32,
    pub initial_credits: u32,
    /// When the node was last heard of, in milliseconds since the Unix epoch.
    pub last_seen: Option<u64>,
    pub tx: Option<u64>,
}

/// The contents of a `NodeInfo`.
#[verifier::ext_equal]
pub struct NodeView {
    pub node_id: u16,
    pub state: NodeState,
    pub control_addr: Seq<char>,
    pub data_addr: Seq<char>,
    pub epoch: u32,
    pub initial_credits: u32,
    pub last_seen: Option<u64>,
    pub tx: Option<u64>,
}

impl View for NodeInfo {
    type V = NodeView;

    open spec fn view(&self) -> NodeView {
        NodeView {
            node_id: self.node_id,
            state: self.state,
            control_addr: self.control_addr@,
            data_addr: self.data_addr@,
            epoch: self.epoch,
            initial_credits: self.initial_credits,
            last_seen: self.last_seen,
            tx: self.tx,
        }
    }
}

impl NodeInfo {
    /// A copy without the link.
    fn without_tx(&self) -> (r: NodeInfo)
        ensures
            r@ == self@.stripped(),
    {
        NodeInfo {
            node_id: self.node_id,
            state: self.state,
            control_addr: self.control_addr.clone(),
            data_addr: self.data_addr.clone(),
            epoch: self.epoch,
            initial_credits: self.initial_credits,
            last_seen: self.last_seen,
            tx: None,
        }
    }
}

impl NodeView {
    /// The node without its link.
    pub open spec fn stripped(self) -> NodeView {
        NodeView { tx: None, ..self }
    }
}

/// What a `MemberTable` holds: each node once, in the order of their arrival.
#[verifier::ext_equal]
pub struct MembersView {
    pub local: u16,
    pub nodes: Seq<NodeView>,
}

impl MembersView {
    /// Whether no node is listed twice.
    pub open spec fn wf(self) -> bool {
        forall|i: int, j: int|
            0 <= i < j < self.nodes.len() ==> (#[trigger] self.nodes[i]).node_id != (
            #[trigger] self.nodes[j]).node_id
    }

    /// Whether the node at a position is the given one.
    pub open spec fn is_at(self, i: int, id: u16) -> bool {
        0 <= i < self.nodes.len() && self.nodes[i].node_id == id
    }

    /// Whether a node is listed.
    pub open spec fn has(self, id: u16) -> bool {
        exists|i: int| #[trigger] self.is_at(i, id)
    }

    /// What is known of a listed node.
    pub open spec fn node(self, id: u16) -> NodeView {
        self.nodes[choose|i: int| #[trigger] self.is_at(i, id)]
    }

    /// The table with a node changed.
    pub open spec fn with(self, id: u16, f: spec_fn(NodeView) -> NodeView) -> Self {
        MembersView {
            nodes: self.nodes.map_values(
                |n: NodeView|
                    if n.node_id == id {
                        f(n)
                    } else {
                        n
                    },
            ),
            ..self
        }
    }

    /// The table with a node in another state.
    pub open spec fn with_state(self, id: u16, state: NodeState) -> Self {
        self.with(id, |n: NodeView| NodeView { state, ..n })
    }

    /// The table with an active node suspect.
    pub open spec fn with_suspect(self, id: u16) -> Self {
        self.with(
            id,
            |n: NodeView|
                if n.state == NodeState::Active {
                    NodeView { state: NodeState::Suspect, ..n }
                } else {
                    n
                },
        )
    }

    /// The table after a node was heard of.
    pub open spec fn with_seen(self, id: u16, ts: u64) -> Self {
        self.with(id, |n: NodeView| NodeView { last_seen: Some(ts), ..n })
    }

    /// The table with a node added, or brought up to date. It keeps when a known node was
    /// last heard of.
    pub open spec fn with_node(self, info: NodeView) -> Self {
        if self.has(info.node_id) {
            self.with(info.node_id, |n: NodeView| NodeView { last_seen: n.last_seen, ..info })
        } else {
            MembersView { nodes: self.nodes.push(info), ..self }
        }
    }

    /// Whether a node is a peer that is not down.
    pub open spec fn is_peer(self, n: NodeView) -> bool {
        n.node_id != self.local && n.state != NodeState::Down
    }

    /// The links to the peers that are not down.
    pub open spec fn peer_links(self) -> Seq<(u16, u64)> {
        self.nodes.filter(|n: NodeView| self.is_peer(n) && n.tx is Some).map_values(
            |n: NodeView| (n.node_id, n.tx->0),
        )
    }

    /// The links to the peers that are active.
    pub open spec fn active_links(self) -> Seq<(u16, u64)> {
        self.nodes.filter(
            |n: NodeView| n.node_id != self.local && n.state == NodeState::Active && n.tx is Some,
        ).map_values(|n: NodeView| (n.node_id, n.tx->0))
    }

    /// A change of one node changes its state, or when it was heard of, and nothing else of
    /// it; every other node stays as it was. Only an active node becomes suspect.
    pub proof fn lemma_one_member(self, id: u16, state: NodeState, ts: u64, i: int)
        requires
            0 <= i < self.nodes.len(),
        ensures
            ({
                let n = self.nodes[i];
                let a = self.with_state(id, state).nodes[i];
                let b = self.with_suspect(id).nodes[i];
                let c = self.with_seen(id, ts).nodes[i];
                &&& self.with_state(id, state).nodes.len() == self.nodes.len()
                &&& self.with_suspect(id).nodes.len() == self.nodes.len()
                &&& self.with_seen(id, ts).nodes.len() == self.nodes.len()
                &&& n.node_id != id ==> a == n && b == n && c == n
                &&& n.node_id == id ==> {
                    &&& a.state == state && a.node_id == id && a.epoch == n.epoch && a.tx == n.tx
                        && a.last_seen == n.last_seen && a.data_addr == n.data_addr
                    &&& c.last_seen == Some(ts) && c.node_id == id && c.state == n.state && c.epoch
                        == n.epoch && c.tx == n.tx
                    &&& n.state == NodeState::Active ==> b.state == NodeState::Suspect
                    &&& n.state != NodeState::Active ==> b == n
                    &&& b.node_id == id && b.epoch == n.epoch && b.tx == n.tx
                }
            }),
    {
    }

    /// A node that is added takes over everything of what is told of it, but a node that was
    /// known keeps when it was last heard of. Every other node stays as it was.
    pub proof fn lemma_node_added(self, info: NodeView, i: int)
        requires
            self.wf(),
            0 <= i < self.nodes.len(),
        ensures
            ({
                let n = self.nodes[i];
                let after = self.with_node(info);
                &&& n.node_id != info.node_id ==> after.nodes[i] == n
                &&& n.node_id == info.node_id ==> after.nodes.len() == self.nodes.len()
                    && after.nodes[i].state == info.state && after.nodes[i].epoch == info.epoch
                    && after.nodes[i].tx == info.tx && after.nodes[i].data_addr == info.data_addr
                    && after.nodes[i].initial_credits == info.initial_credits
                    && after.nodes[i].last_seen == n.last_seen
                &&& (forall|j: int|
                    0 <= j < self.nodes.len() ==> (#[trigger] self.nodes[j]).node_id
                        != info.node_id) ==> after.nodes == self.nodes.push(info)
            }),
    {
        if self.nodes[i].node_id == info.node_id {
            assert(self.is_at(i, info.node_id));
        }
        if self.has(info.node_id) {
            let k = choose|k: int| #[trigger] self.is_at(k, info.node_id);
            assert(self.nodes[k].node_id == info.node_id);
        }
    }

    /// Messages go over the link of every other node that is not down and has one, and over
    /// no other link; those to the active nodes over the links of the active ones.
    pub proof fn lemma_links(self, i: int)
        requires
            0 <= i < self.nodes.len(),
            self.nodes[i].tx is Some,
            self.wf(),
        ensures
            ({
                let n = self.nodes[i];
                &&& self.peer_links().contains((n.node_id, n.tx->0)) <==> n.node_id != self.local
                    && n.state != NodeState::Down
                &&& self.active_links().contains((n.node_id, n.tx->0)) <==> n.node_id != self.local
                    && n.state == NodeState::Active
            }),
    {
        let n = self.nodes[i];
        let link = (n.node_id, n.tx->0);
        let peer = |n: NodeView| self.is_peer(n) && n.tx is Some;
        let active = |n: NodeView|
            n.node_id != self.local && n.state == NodeState::Active && n.tx is Some;
        let p = self.nodes.filter(peer);
        let a = self.nodes.filter(active);
        if peer(n) {
            self.nodes.lemma_filter_contains(peer, i);
            let k = choose|k: int| 0 <= k < p.len() && p[k] == n;
            assert(self.peer_links()[k] == link);
        }
        if active(n) {
            self.nodes.lemma_filter_contains(active, i);
            let k = choose|k: int| 0 <= k < a.len() && a[k] == n;
            assert(self.active_links()[k] == link);
        }
        if self.peer_links().contains(link) {
            let k = choose|k: int|
                0 <= k < self.peer_links().len() && self.peer_links()[k] == link;
            self.nodes.lemma_filter_pred(peer, k);
            assert(p.contains(p[k]));
            self.nodes.lemma_filter_contains_rev(peer, p[k]);
            let j = choose|j: int| 0 <= j < self.nodes.len() && self.nodes[j] == p[k];
            assert(j == i);
        }
        if self.active_links().contains(link) {
            let k = choose|k: int|
                0 <= k < self.active_links().len() && self.active_links()[k] == link;
            self.nodes.lemma_filter_pred(active, k);
            assert(a.contains(a[k]));
            self.nodes.lemma_filter_contains_rev(active, a[k]);
            let j = choose|j: int| 0 <= j < self.nodes.len() && self.nodes[j] == a[k];
            assert(j == i);
        }
    }

    /// Adding a node keeps the table free of repetitions, and the node is in it.
    pub proof fn lemma_with_node(self, info: NodeView)
        requires
            self.wf(),
        ensures
            self.with_node(info).wf(),
            self.with_node(info).has(info.node_id),
            self.with_node(info).node(info.node_id).state == info.state,
            self.with_node(info).node(info.node_id).epoch == info.epoch,
    {
        let after = self.with_node(info);
        if self.has(info.node_id) {
            let i = choose|i: int| #[trigger] self.is_at(i, info.node_id);
            assert(after.is_at(i, info.node_id));
        } else {
            assert(after.is_at(self.nodes.len() as int, info.node_id));
            assert forall|i: int, j: int| 0 <= i < j < after.nodes.len() implies (
            #[trigger] after.nodes[i]).node_id != (#[trigger] after.nodes[j]).node_id by {
                if j == self.nodes.len() {
                    assert(!self.is_at(i, info.node_id));
                }
            }
        }
        let p = choose|p: int| #[trigger] after.is_at(p, info.node_id);
        assert(after.is_at(p, info.node_id));
    }
}

/// The members of the pod.
pub struct MemberTable {
    local_node_id: u16,
    nodes: Vec<NodeInfo>,
}

impl View for MemberTable {
    type V = MembersView;

    closed spec fn view(&self) -> MembersView {
        MembersView {
            local: self.local_node_id,
            nodes: self.nodes@.map_values(|n: NodeInfo| n@),
        }
    }
}

impl MemberTable {
    pub closed spec fn wf(&self) -> bool {
        self@.wf()
    }

    /// No node is listed twice.
    pub proof fn lemma_wf(&self)
        requires
            self.wf(),
        ensures
            self@.wf(),
    {
    }

    pub fn new(local_node_id: u16) -> (r: Self)
        ensures
            r.wf(),
            r@ == (MembersView { local: local_node_id, nodes: Seq::empty() }),
    {
        let r = MemberTable { local_node_id, nodes: Vec::new() };
        assert(r@ =~= MembersView { local: local_node_id, nodes: Seq::empty() });
        r
    }

    fn position(&self, node_id: u16) -> (r: Option<usize>)
        ensures
            match r {
                Some(i) => self@.is_at(i as int, node_id) && i < self.nodes@.len(),
                None => !self@.has(node_id),
            },
    {
        let n: usize = self.nodes.len();
        let mut i: usize = 0;
        while i < n
            invariant
                i <= n,
                n == self.nodes@.len(),
                forall|j: int| 0 <= j < i ==> !#[trigger] self@.is_at(j, node_id),
            decreases n - i,
        {
            if self.nodes[i].node_id == node_id {
                return Some(i);
            }
            assert(!self@.is_at(i as int, node_id));
            i = i + 1;
        }
        None
    }

    /// Adds a node, or brings what is known of it up to date.
    pub fn upsert(&mut self, info: NodeInfo)
        requires
            old(self).wf(),
        ensures
            final(self).wf(),
            final(self)@ == old(self)@.with_node(info@),
    {
        proof {
            self@.lemma_with_node(info@);
        }
        match self.position(info.node_id) {
            Some(i) => {
                let last_seen = self.nodes[i].last_seen;
                self.nodes.set(i, NodeInfo { last_seen, ..info });
                assert(self@ =~= old(self)@.with_node(info@));
            },
            None => {
                self.nodes.push(info);
                assert(self@ =~= old(self)@.with_node(info@));
            },
        }
    }

    fn set_state(&mut self, node_id: u16, state: NodeState)
        requires
            old(self).wf(),
        ensures
            final(self).wf(),
            final(self)@ == old(self)@.with_state(node_id, state),
    {
        match self.position(node_id) {
            Some(i) => {
                self.nodes[i].state = state;
                assert(self@ =~= old(self)@.with_state(node_id, state));
            },
            None => {
                proof {
                    assert forall|j: int| 0 <= j < self@.nodes.len() implies (
                    #[trigger] self@.nodes[j]).node_id != node_id by {
                        assert(!self@.is_at(j, node_id));
                    }
                    assert(self@ =~= self@.with_state(node_id, state));
                }
            },
        }
    }

    /// Marks a node as down.
    pub fn mark_down(&mut self, node_id: u16)
        requires
            old(self).wf(),
        ensures
            final(self).wf(),
            final(self)@ == old(self)@.with_state(node_id, NodeState::Down),
    {
        self.set_state(node_id, NodeState::Down);
    }

    /// Marks an active node as suspect.
    pub fn mark_suspect(&mut self, node_id: u16)
        requires
            old(self).wf(),
        ensures
            final(self).wf(),
            final(self)@ == old(self)@.with_suspect(node_id),
    {
        match self.position(node_id) {
            Some(i) => {
                if self.nodes[i].state == NodeState::Active {
                    self.nodes[i].state = NodeState::Suspect;
                }
                assert(self@ =~= old(self)@.with_suspect(node_id));
            },
            None => {
                proof {
                    assert forall|j: int| 0 <= j < self@.nodes.len() implies (
                    #[trigger] self@.nodes[j]).node_id != node_id by {
                        assert(!self@.is_at(j, node_id));
                    }
                    assert(self@ =~= self@.with_suspect(node_id));
                }
            },
        }
    }

    /// Marks a node as active.
    pub fn mark_active(&mut self, node_id: u16)
        requires
            old(self).wf(),
        ensures
            final(self).wf(),
            final(self)@ == old(self)@.with_state(node_id, NodeState::Active),
    {
        self.set_state(node_id, NodeState::Active);
    }

    /// Takes note that a node was heard of.
    pub fn update_last_seen(&mut self, node_id: u16, ts: u64)
        requires
            old(self).wf(),
        ensures
            final(self).wf(),
            final(self)@ == old(self)@.with_seen(node_id, ts),
    {
        match self.position(node_id) {
            Some(i) => {
                self.nodes[i].last_seen = Some(ts);
                assert(self@ =~= old(self)@.with_seen(node_id, ts));
            },
            None => {
                proof {
                    assert forall|j: int| 0 <= j < self@.nodes.len() implies (
                    #[trigger] self@.nodes[j]).node_id != node_id by {
                        assert(!self@.is_at(j, node_id));
                    }
                    assert(self@ =~= self@.with_seen(node_id, ts));
                }
            },
        }
    }

    /// The link to a node.
    pub fn get_peer_tx(&self, node_id: u16) -> (r: Option<u64>)
        requires
            self.wf(),
        ensures
            r == (if self@.has(node_id) {
                self@.node(node_id).tx
            } else {
                None
            }),
    {
        match self.position(node_id) {
            Some(i) => {
                proof {
                    let p = choose|p: int| #[trigger] self@.is_at(p, node_id);
                    assert(self@.is_at(i as int, node_id));
                    assert(self@.nodes[p].node_id == self@.nodes[i as int].node_id);
                }
                self.nodes[i].tx
            },
            None => None,
        }
    }

    /// The peers that are not down.
    pub fn active_peer_ids(&self) -> (r: Vec<u16>)
        ensures
            r@ == self@.nodes.filter(|n: NodeView| self@.is_peer(n)).map_values(
                |n: NodeView| n.node_id,
            ),
    {
        let ghost all = self@.nodes;
        let ghost f = |n: NodeView| self@.is_peer(n);
        let ghost g = |n: NodeView| n.node_id;
        let mut out: Vec<u16> = Vec::new();
        let mut i: usize = 0;
        proof {
            reveal(Seq::filter);
            assert(all.take(0) =~= Seq::empty());
            assert(out@ =~= all.take(0).filter(f).map_values(g));
        }
        while i < self.nodes.len()
            invariant
                i <= self.nodes@.len(),
                all == self@.nodes,
                f == (|n: NodeView| self@.is_peer(n)),
                g == (|n: NodeView| n.node_id),
                out@ == all.take(i as int).filter(f).map_values(g),
            decreases self.nodes@.len() - i,
        {
            let ghost had = all.take(i as int).filter(f);
            proof {
                reveal(Seq::filter);
                assert(all.take(i + 1).drop_last() =~= all.take(i as int));
                assert(all.take(i + 1).last() == all[i as int]);
                assert(had.push(all[i as int]).map_values(g) =~= had.map_values(g).push(
                    all[i as int].node_id,
                ));
            }
            let n = &self.nodes[i];
            if n.node_id != self.local_node_id && n.state != NodeState::Down {
                out.push(n.node_id);
            }
            i = i + 1;
        }
        assert(all.take(i as int) =~= all);
        out
    }

    /// What is known of every node, without the links.
    pub fn list(&self) -> (r: Vec<NodeInfo>)
        ensures
            r@.map_values(|n: NodeInfo| n@) == self@.nodes.map_values(
                |n: NodeView| n.stripped(),
            ),
    {
        let ghost all = self@.nodes;
        let mut out: Vec<NodeInfo> = Vec::new();
        let mut i: usize = 0;
        while i < self.nodes.len()
            invariant
                i <= self.nodes@.len(),
                all == self@.nodes,
                out@.len() == i,
                forall|j: int| 0 <= j < i ==> (#[trigger] out@[j])@ == all[j].stripped(),
            decreases self.nodes@.len() - i,
        {
            out.push(self.nodes[i].without_tx());
            i = i + 1;
        }
        assert(out@.map_values(|n: NodeInfo| n@) =~= all.map_values(|n: NodeView| n.stripped()));
        out
    }

    /// The links to the peers that are not down.
    pub fn active_peer_senders(&self) -> (r: Vec<(u16, u64)>)
        ensures
            r@ == self@.peer_links(),
    {
        let ghost all = self@.nodes;
        let ghost f = |n: NodeView| self@.is_peer(n) && n.tx is Some;
        let ghost g = |n: NodeView| (n.node_id, n.tx->0);
        let mut out: Vec<(u16, u64)> = Vec::new();
        let mut i: usize = 0;
        proof {
            reveal(Seq::filter);
            assert(all.take(0) =~= Seq::empty());
            assert(out@ =~= all.take(0).filter(f).map_values(g));
        }
        while i < self.nodes.len()
            invariant
                i <= self.nodes@.len(),
                all == self@.nodes,
                f == (|n: NodeView| self@.is_peer(n) && n.tx is Some),
                g == (|n: NodeView| (n.node_id, n.tx->0)),
                out@ == all.take(i as int).filter(f).map_values(g),
            decreases self.nodes@.len() - i,
        {
            let ghost had = all.take(i as int).filter(f);
            proof {
                reveal(Seq::filter);
                assert(all.take(i + 1).drop_last() =~= all.take(i as int));
                assert(all.take(i + 1).last() == all[i as int]);
                assert(had.push(all[i as int]).map_values(g) =~= had.map_values(g).push(
                    g(all[i as int]),
                ));
            }
            let n = &self.nodes[i];
            if n.node_id != self.local_node_id && n.state != NodeState::Down {
                if let Some(tx) = n.tx {
                    out.push((n.node_id, tx));
                }
            }
            i = i + 1;
        }
        assert(all.take(i as int) =~= all);
        out
    }

    /// The links that a broadcast goes to: those to the active peers.
    pub fn broadcast_senders(&self) -> (r: Vec<(u16, u64)>)
        ensures
            r@ == self@.active_links(),
    {
        let ghost all = self@.nodes;
        let ghost f = |n: NodeView|
            n.node_id != self@.local && n.state == NodeState::Active && n.tx is Some;
        let ghost g = |n: NodeView| (n.node_id, n.tx->0);
        let mut out: Vec<(u16, u64)> = Vec::new();
        let mut i: usize = 0;
        proof {
            reveal(Seq::filter);
            assert(all.take(0) =~= Seq::empty());
            assert(out@ =~= all.take(0).filter(f).map_values(g));
        }
        while i < self.nodes.len()
            invariant
                i <= self.nodes@.len(),
                all == self@.nodes,
                f == (|n: NodeView|
                    n.node_id != self@.local && n.state == NodeState::Active && n.tx is Some),
                g == (|n: NodeView| (n.node_id, n.tx->0)),
                out@ == all.take(i as int).filter(f).map_values(g),
            decreases self.nodes@.len() - i,
        {
            let ghost had = all.take(i as int).filter(f);
            proof {
                reveal(Seq::filter);
                assert(all.take(i + 1).drop_last() =~= all.take(i as int));
                assert(all.take(i + 1).last() == all[i as int]);
                assert(had.push(all[i as int]).map_values(g) =~= had.map_values(g).push(
                    g(all[i as int]),
                ));
            }
            let n = &self.nodes[i];
            if n.node_id != self.local_node_id && n.state == NodeState::Active {
                if let Some(tx) = n.tx {
                    out.push((n.node_id, tx));
                }
            }
            i = i + 1;
        }
        assert(all.take(i as int) =~= all);
        out
    }

    /// What is known of a node, without the link.
    pub fn get(&self, node_id: u16) -> (r: Option<NodeInfo>)
        requires
            self.wf(),
        ensures
            match r {
                Some(n) => self@.has(node_id) && n@ == self@.node(node_id).stripped(),
                None => !self@.has(node_id),
            },
    {
        match self.position(node_id) {
            Some(i) => {
                proof {
                    let p = choose|p: int| #[trigger] self@.is_at(p, node_id);
                    assert(self@.is_at(i as int, node_id));
                    assert(self@.nodes[p].node_id == self@.nodes[i as int].node_id);
                }
                Some(self.nodes[i].without_tx())
            },
            None => None,
        }
    }

    pub fn local_node_id(&self) -> (r: u16)
        ensures
            r == self@.local,
    {
        self.local_node_id
    }
}

} // verus!
