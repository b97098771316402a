//! Who may write a region and who holds copies of it, at the region's home. Times are in
//! milliseconds.
use crate::table::Table;
use crate::text::{dec_text, push_dec};
use crate::types::{RegionId, UbVa};
use std::collections::HashSet;
use vstd::prelude::*;
use vstd::std_specs::hash::group_hash_axioms;
use vstd::std_specs::iter::IteratorSpec;
use vstd::string::*;

verus! {

/// The writer of a region, and until when it may write.
#[derive(Debug, Clone, Copy, PartialEq, Eq, Structural)]
pub struct WriterInfo {
    pub writer_node_id: u16,
    pub lease_deadline: u64,
}

/// What the home of a region knows of it.
#[verifier::ext_equal]
pub struct HomeView {
    pub mr_handle: u32,
    pub base_offset: u64,
    pub len: u64,
    pub epoch: u64,
    /// Nodes that hold copies.
    pub readers: Set<u16>,
    pub writer: Option<WriterInfo>,
}

impl HomeView {
    /// Whether another node may write at `now`.
    pub open spec fn blocks(self, node: u16, now: u64) -> bool {
        self.writer matches Some(w) && now <= w.lease_deadline && w.writer_node_id != node
    }

    /// Whether the time of the writer is up at `now`.
    pub open spec fn expired(self, now: u64) -> bool {
        self.writer matches Some(w) && now > w.lease_deadline
    }

    /// Whether a node is the writer.
    pub open spec fn written_by(self, node: u16) -> bool {
        self.writer matches Some(w) && w.writer_node_id == node
    }

    /// The region with a writer until `deadline`.
    pub open spec fn granted(self, node: u16, deadline: u64) -> Self {
        HomeView {
            writer: Some(WriterInfo { writer_node_id: node, lease_deadline: deadline }),
            ..self
        }
    }

    /// The region in the next epoch.
    pub open spec fn bumped(self) -> Self {
        HomeView { epoch: (self.epoch + 1) as u64, ..self }
    }

    /// The region without writer, in the next epoch.
    pub open spec fn released(self) -> Self {
        HomeView { writer: None, ..self.bumped() }
    }

    /// While the writer's time is not up no other node is let in, and the writer itself is.
    /// Every node is once the time is up, or the writer has given the lock back.
    pub proof fn lemma_one_writer(self, node: u16, deadline: u64, other: u16, now: u64)
        requires
            other != node,
        ensures
            self.granted(node, deadline).blocks(other, now) <==> now <= deadline,
            !self.granted(node, deadline).blocks(node, now),
            !self.granted(node, deadline).released().blocks(other, now),
    {
    }

    /// A write lock is over once its deadline has passed, whoever holds it and whoever holds
    /// copies; no write lock, no end of one. The writer is the node it was granted to and no
    /// other.
    pub proof fn lemma_lease_ends(self, node: u16, deadline: u64, other: u16, now: u64)
        ensures
            self.granted(node, deadline).expired(now) <==> now > deadline,
            self.writer is None ==> !self.expired(now) && !self.blocks(node, now)
                && !self.written_by(node),
            self.granted(node, deadline).written_by(other) <==> other == node,
            self.granted(node, deadline).readers == self.readers,
            self.granted(node, deadline).epoch == self.epoch,
            self.granted(node, deadline).len == self.len,
    {
    }

    /// Who writes next sees a later epoch: every end of a writer's time moves it on.
    pub proof fn lemma_epoch_rises(self, node: u16, deadline: u64)
        requires
            self.epoch < u64::MAX,
        ensures
            self.granted(node, deadline).epoch == self.epoch,
            self.granted(node, deadline).released().epoch > self.epoch,
            self.granted(node, deadline).released().writer is None,
            self.granted(node, deadline).released().readers == self.readers,
            self.bumped().epoch == self.epoch + 1,
            self.bumped().writer == self.writer,
            self.bumped().readers == self.readers,
            self.released().epoch == self.epoch + 1,
            self.released().writer is None,
            self.released().readers == self.readers,
            self.released().len == self.len,
            self.released().base_offset == self.base_offset,
            self.released().mr_handle == self.mr_handle,
    {
    }
}

/// What the home of a region keeps of it.
#[derive(Debug)]
pub struct RegionHomeState {
    pub mr_handle: u32,
    pub base_offset: u64,
    pub len: u64,
    pub epoch: u64,
    /// Nodes that hold copies.
    pub readers: HashSet<u16>,
    pub writer: Option<WriterInfo>,
}

impl View for RegionHomeState {
    type V = HomeView;

    open spec fn view(&self) -> HomeView {
        HomeView {
            mr_handle: self.mr_handle,
            base_offset: self.base_offset,
            len: self.len,
            epoch: self.epoch,
            readers: self.readers@,
            writer: self.writer,
        }
    }
}

impl RegionHomeState {
    pub fn new(mr_handle: u32, base_offset: u64, len: u64, epoch: u64) -> (r: Self)
        ensures
            r@ == (HomeView {
                mr_handle,
                base_offset,
                len,
                epoch,
                readers: Set::empty(),
                writer: None,
            }),
    {
        RegionHomeState {
            mr_handle,
            base_offset,
            len,
            epoch,
            readers: HashSet::new(),
            writer: None,
        }
    }

    pub fn current_epoch(&self) -> (r: u64)
        ensures
            r == self@.epoch,
    {
        self.epoch
    }

    /// Moves to the next epoch and returns it.
    pub fn bump_epoch(&mut self) -> (r: u64)
        requires
            old(self)@.epoch < u64::MAX,
        ensures
            r == old(self)@.epoch + 1,
            final(self)@ == old(self)@.bumped(),
    {
        self.epoch = self.epoch + 1;
        self.epoch
    }

    /// Whether the time of the writer is up.
    pub fn is_writer_lease_expired(&self, now: u64) -> (r: bool)
        ensures
            r == self@.expired(now),
            match self.writer {
                Some(w) => r == (now > w.lease_deadline),
                None => !r,
            },
    {
        match self.writer {
            Some(info) => now > info.lease_deadline,
            None => false,
        }
    }

    pub fn add_reader(&mut self, node_id: u16)
        ensures
            final(self)@ == (HomeView {
                readers: old(self)@.readers.insert(node_id),
                ..old(self)@
            }),
    {
        broadcast use group_hash_axioms;

        self.readers.insert(node_id);
    }

    /// Removes a reader. Returns whether there was one.
    pub fn remove_reader(&mut self, node_id: u16) -> (r: bool)
        ensures
            r == old(self)@.readers.contains(node_id),
            final(self)@ == (HomeView {
                readers: old(self)@.readers.remove(node_id),
                ..old(self)@
            }),
    {
        broadcast use group_hash_axioms;

        self.readers.remove(&node_id)
    }

    /// The nodes that hold copies.
    pub fn reader_nodes(&self) -> (r: HashSet<u16>)
        ensures
            r@ == self@.readers,
    {
        broadcast use group_hash_axioms;

        let mut out: HashSet<u16> = HashSet::new();
        let ghost all = self.readers.iter().remaining().unref();
        assert(all.take(all.len() as int) =~= all);
        for node in it: self.readers.iter()
            invariant
                it.seq().unref() == all,
                out@ == all.take(it.index() as int).to_set(),
        {
            proof {
                let a = all.take(it.index() as int);
                let b = all.take(it.index() + 1);
                assert(b =~= a.push(*node));
                assert forall|n: u16| b.to_set().contains(n) <==> a.to_set().contains(n) || n
                    == *node by {
                    if a.contains(n) {
                        let p = choose|p: int| 0 <= p < a.len() && a[p] == n;
                        assert(b[p] == n);
                    }
                    assert(b[a.len() as int] == *node);
                }
                assert(out@.insert(*node) =~= b.to_set());
            }
            out.insert(*node);
        }
        out
    }

    /// How many nodes hold copies.
    pub fn reader_count(&self) -> (r: usize)
        ensures
            r == self@.readers.len(),
    {
        broadcast use group_hash_axioms;

        self.readers.len()
    }
}

/// The answer to a request for the write lock.
#[derive(Debug, Clone, PartialEq, Eq)]
pub enum AcquireWriterResult {
    /// The node may write.
    Granted { region_id: RegionId, epoch: u64 },
    /// Another node may write.
    Denied { region_id: RegionId, reason: String },
    /// The node waits for its turn.
    Queued { region_id: RegionId },
    /// The region is not known.
    NotFound,
}

/// What a `CoherenceManager` holds.
#[verifier::ext_equal]
pub struct CoherenceView {
    pub states: Map<RegionId, HomeView>,
    /// Nodes that were denied the write lock, in the order of their requests.
    pub waits: Map<RegionId, Seq<u16>>,
    pub lease_ms: u64,
}

impl CoherenceView {
    /// The regions with one changed.
    pub open spec fn with(self, id: RegionId, h: HomeView) -> Self {
        CoherenceView { states: self.states.insert(id, h), ..self }
    }

    /// The regions with a node waiting for one of them.
    pub open spec fn waiting(self, id: RegionId, node: u16) -> Self {
        CoherenceView {
            waits: self.waits.insert(
                id,
                if self.waits.contains_key(id) {
                    self.waits[id].push(node)
                } else {
                    seq![node]
                },
            ),
            ..self
        }
    }

    /// The regions after every writer whose time is up at `now` has lost the write lock.
    pub open spec fn after_expiry(self, now: u64) -> Self {
        CoherenceView {
            states: self.states.map_values(
                |h: HomeView|
                    if h.expired(now) {
                        h.released()
                    } else {
                        h
                    },
            ),
            ..self
        }
    }

    /// The expiry check ends the write locks whose deadlines have passed, and no other. A
    /// region that loses its writer moves to the next epoch and keeps everything else; every
    /// other region stays as it was.
    pub proof fn lemma_locks_end(self, now: u64, id: RegionId)
        requires
            self.states.contains_key(id),
            self.states[id].epoch < u64::MAX,
        ensures
            ({
                let before = self.states[id];
                let after = self.after_expiry(now).states[id];
                match before.writer {
                    Some(w) => if now > w.lease_deadline {
                        &&& after.writer is None
                        &&& after.epoch == before.epoch + 1
                        &&& after.readers == before.readers
                        &&& after.mr_handle == before.mr_handle
                        &&& after.base_offset == before.base_offset
                        &&& after.len == before.len
                    } else {
                        after == before
                    },
                    None => after == before,
                }
            }),
            self.after_expiry(now).states.dom() == self.states.dom(),
            self.after_expiry(now).waits == self.waits,
            self.after_expiry(now).lease_ms == self.lease_ms,
    {
        assert(self.after_expiry(now).states.dom() =~= self.states.dom());
    }

    /// A change of one region changes no other, and a node that waits for a region stands
    /// behind those that waited for it before.
    pub proof fn lemma_one_region(self, id: RegionId, h: HomeView, node: u16, other: RegionId)
        requires
            other != id,
        ensures
            self.with(id, h).states[id] == h,
            self.with(id, h).states.contains_key(id),
            self.with(id, h).states.contains_key(other) == self.states.contains_key(other),
            self.with(id, h).states[other] == self.states[other],
            self.with(id, h).waits == self.waits,
            self.waiting(id, node).states == self.states,
            self.waiting(id, node).waits[id].last() == node,
            self.waits.contains_key(id) ==> self.waiting(id, node).waits[id].drop_last()
                == self.waits[id],
            !self.waits.contains_key(id) ==> self.waiting(id, node).waits[id].len() == 1,
            self.waiting(id, node).waits[other] == self.waits[other],
    {
        if self.waits.contains_key(id) {
            assert(self.waits[id].push(node).drop_last() =~= self.waits[id]);
        }
    }

    /// After the expiry check nobody holds a write lock whose time is up, and no epoch has
    /// fallen.
    pub proof fn lemma_expiry(self, now: u64, id: RegionId)
        requires
            self.states.contains_key(id),
            self.states[id].epoch < u64::MAX,
        ensures
            self.after_expiry(now).states.contains_key(id),
            !self.after_expiry(now).states[id].expired(now),
            self.after_expiry(now).states[id].epoch >= self.states[id].epoch,
    {
    }
}

/// The reason of a denial.
pub open spec fn held_text(node: u16) -> Seq<char> {
    "writer node "@ + dec_text(node as nat) + " holds the lock"@
}

/// A region of a list, with its epoch, its writer and the nodes that hold copies.
pub open spec fn row_of(id: RegionId, h: HomeView) -> (RegionId, u64, Option<u16>, Set<u16>) {
    (
        id,
        h.epoch,
        match h.writer {
            Some(w) => Some(w.writer_node_id),
            None => None,
        },
        h.readers,
    )
}

/// A row of the list tells the region, its epoch, its writer and its readers.
pub proof fn lemma_row(id: RegionId, h: HomeView)
    ensures
        row_of(id, h).0 == id,
        row_of(id, h).1 == h.epoch,
        row_of(id, h).2 is Some <==> h.writer is Some,
        h.writer matches Some(w) ==> row_of(id, h).2 == Some(w.writer_node_id),
        row_of(id, h).3 == h.readers,
{
}

/// Single writer, many readers: the write locks and the copies of the regions at home here.
pub struct CoherenceManager {
    home_states: Table<RegionHomeState>,
    writer_lease_ms: u64,
    wait_queues: Table<Vec<u16>>,
}

impl View for CoherenceManager {
    type V = CoherenceView;

    closed spec fn view(&self) -> CoherenceView {
        CoherenceView {
            states: Map::new(
                |k: RegionId| self.home_states@.contains_key(k.0 as u128),
                |k: RegionId| self.home_states@[k.0 as u128]@,
            ),
            waits: Map::new(
                |k: RegionId| self.wait_queues@.contains_key(k.0 as u128),
                |k: RegionId| self.wait_queues@[k.0 as u128]@,
            ),
            lease_ms: self.writer_lease_ms,
        }
    }
}

impl CoherenceManager {
    pub closed spec fn wf(&self) -> bool {
        &&& self.home_states.wf()
        &&& self.wait_queues.wf()
        &&& forall|k: u128| #[trigger]
            self.home_states@.contains_key(k) ==> k <= u64::MAX
    }

    pub fn new(writer_lease_ms: u64) -> (r: Self)
        ensures
            r.wf(),
            r@ == (CoherenceView {
                states: Map::empty(),
                waits: Map::empty(),
                lease_ms: writer_lease_ms,
            }),
    {
        let r = CoherenceManager {
            home_states: Table::new(),
            writer_lease_ms,
            wait_queues: Table::new(),
        };
        assert(r@ =~= CoherenceView {
            states: Map::empty(),
            waits: Map::empty(),
            lease_ms: writer_lease_ms,
        });
        r
    }

    /// Starts to keep track of a region.
    pub fn register_region(&mut self, region_id: RegionId, mr_handle: u32, base_offset: u64, len: u64)
        requires
            old(self).wf(),
        ensures
            final(self).wf(),
            final(self)@ == old(self)@.with(
                region_id,
                HomeView {
                    mr_handle,
                    base_offset,
                    len,
                    epoch: 0,
                    readers: Set::empty(),
                    writer: None,
                },
            ),
    {
        self.home_states.insert(
            region_id.0 as u128,
            RegionHomeState::new(mr_handle, base_offset, len, 0),
        );
        assert(self@ =~= old(self)@.with(region_id, self@.states[region_id]));
    }

    /// Stops to keep track of a region. Returns what was known of it.
    pub fn unregister_region(&mut self, region_id: RegionId) -> (r: Option<RegionHomeState>)
        requires
            old(self).wf(),
        ensures
            final(self).wf(),
            final(self)@ == (CoherenceView {
                states: old(self)@.states.remove(region_id),
                ..old(self)@
            }),
            match r {
                Some(s) => old(self)@.states.contains_key(region_id) && s@
                    == old(self)@.states[region_id],
                None => !old(self)@.states.contains_key(region_id),
            },
    {
        let r = self.home_states.remove(region_id.0 as u128);
        assert(self@ =~= CoherenceView {
            states: old(self)@.states.remove(region_id),
            ..old(self)@
        });
        r
    }

    /// What is known of a region.
    pub fn get_home_state(&self, region_id: RegionId) -> (r: Option<&RegionHomeState>)
        requires
            self.wf(),
        ensures
            match r {
                Some(s) => self@.states.contains_key(region_id) && s@ == self@.states[region_id],
                None => !self@.states.contains_key(region_id),
            },
    {
        self.home_states.get(region_id.0 as u128)
    }

    /// Whether a region is kept track of.
    pub fn contains_region(&self, region_id: RegionId) -> (r: bool)
        requires
            self.wf(),
        ensures
            r == self@.states.contains_key(region_id),
    {
        self.home_states.contains(region_id.0 as u128)
    }

    /// A change of one region leaves the others as they were.
    proof fn lemma_with(before: Self, after: Self, id: RegionId)
        requires
            before.wf(),
            after.home_states.wf(),
            after.home_states@ == before.home_states@.insert(
                id.0 as u128,
                after.home_states@[id.0 as u128],
            ),
            after == (CoherenceManager { home_states: after.home_states, ..before }),
        ensures
            after.wf(),
            after@ == before@.with(id, after.home_states@[id.0 as u128]@),
    {
        assert(after@ =~= before@.with(id, after.home_states@[id.0 as u128]@));
    }

    /// Asks for the write lock of a region. It is granted unless another node holds it and
    /// its time is not up; then the node is listed as waiting. Nodes that hold copies are to
    /// be told by the caller.
    pub fn acquire_writer(&mut self, region_id: RegionId, writer_node_id: u16, now: u64) -> (r:
        AcquireWriterResult)
        requires
            old(self).wf(),
            old(self)@.states.contains_key(region_id) && !old(self)@.states[region_id].blocks(
                writer_node_id,
                now,
            ) ==> now + old(self)@.lease_ms <= u64::MAX,
        ensures
            final(self).wf(),
            if !old(self)@.states.contains_key(region_id) {
                r is NotFound && final(self)@ == old(self)@
            } else {
                let h = old(self)@.states[region_id];
                if h.blocks(writer_node_id, now) {
                    &&& r matches AcquireWriterResult::Denied { region_id: id, reason }
                    &&& id == region_id
                    &&& reason@ == held_text(h.writer->0.writer_node_id)
                    &&& final(self)@ == old(self)@.waiting(region_id, writer_node_id)
                } else {
                    &&& r matches AcquireWriterResult::Granted { region_id: id, epoch }
                    &&& id == region_id
                    &&& epoch == h.epoch
                    &&& final(self)@ == old(self)@.with(
                        region_id,
                        h.granted(writer_node_id, (now + old(self)@.lease_ms) as u64),
                    )
                }
            },
    {
        let k: u128 = region_id.0 as u128;
        let holder = match self.home_states.get(k) {
            Some(state) => state.writer,
            None => return AcquireWriterResult::NotFound,
        };
        if let Some(info) = holder {
            if now <= info.lease_deadline && info.writer_node_id != writer_node_id {
                self.push_waiting(region_id, writer_node_id);
                let mut reason = String::from_str("writer node ");
                push_dec(&mut reason, info.writer_node_id as u64);
                reason.append(" holds the lock");
                return AcquireWriterResult::Denied { region_id, reason };
            }
        }
        let deadline: u64 = now + self.writer_lease_ms;
        let mut epoch: u64 = 0;
        match self.home_states.get_mut(k) {
            Some(state) => {
                epoch = state.epoch;
                state.writer = Some(WriterInfo { writer_node_id, lease_deadline: deadline });
            },
            None => {},
        }
        proof {
            Self::lemma_with(*old(self), *self, region_id);
        }
        AcquireWriterResult::Granted { region_id, epoch }
    }

    fn push_waiting(&mut self, region_id: RegionId, node: u16)
        requires
            old(self).wf(),
        ensures
            final(self).wf(),
            final(self)@ == old(self)@.waiting(region_id, node),
    {
        let k: u128 = region_id.0 as u128;
        if self.wait_queues.contains(k) {
            match self.wait_queues.get_mut(k) {
                Some(q) => {
                    q.push(node);
                },
                None => {},
            }
        } else {
            let mut q: Vec<u16> = Vec::new();
            q.push(node);
            assert(q@ =~= seq![node]);
            self.wait_queues.insert(k, q);
        }
        assert(self@ =~= old(self)@.waiting(region_id, node));
    }

    /// Gives the write lock of a region back, and moves the region to the next epoch.
    /// Returns whether the node held the lock.
    pub fn release_writer(&mut self, region_id: RegionId, writer_node_id: u16) -> (r: bool)
        requires
            old(self).wf(),
            old(self)@.states.contains_key(region_id) && old(self)@.states[region_id].written_by(
                writer_node_id,
            ) ==> old(self)@.states[region_id].epoch < u64::MAX,
        ensures
            final(self).wf(),
            r == (old(self)@.states.contains_key(region_id)
                && old(self)@.states[region_id].written_by(writer_node_id)),
            final(self)@ == (if r {
                old(self)@.with(region_id, old(self)@.states[region_id].released())
            } else {
                old(self)@
            }),
    {
        let k: u128 = region_id.0 as u128;
        let holder = match self.home_states.get(k) {
            Some(state) => state.writer,
            None => return false,
        };
        match holder {
            Some(info) => {
                if info.writer_node_id != writer_node_id {
                    return false;
                }
            },
            None => return false,
        }
        match self.home_states.get_mut(k) {
            Some(state) => {
                state.writer = None;
                state.bump_epoch();
            },
            None => {},
        }
        proof {
            Self::lemma_with(*old(self), *self, region_id);
        }
        true
    }

    /// Takes note that a node has dropped its copy of a region. Returns whether it was known
    /// to hold one.
    pub fn handle_invalidate_ack(&mut self, region_id: RegionId, reader_node_id: u16) -> (r: bool)
        requires
            old(self).wf(),
        ensures
            final(self).wf(),
            r == (old(self)@.states.contains_key(region_id)
                && old(self)@.states[region_id].readers.contains(reader_node_id)),
            final(self)@ == (if r {
                let h = old(self)@.states[region_id];
                old(self)@.with(
                    region_id,
                    HomeView { readers: h.readers.remove(reader_node_id), ..h },
                )
            } else {
                old(self)@
            }),
    {
        self.remove_reader(region_id, reader_node_id)
    }

    /// Takes note that a node holds a copy of a region. Returns whether the region is known.
    pub fn add_reader(&mut self, region_id: RegionId, reader_node_id: u16) -> (r: bool)
        requires
            old(self).wf(),
        ensures
            final(self).wf(),
            r == old(self)@.states.contains_key(region_id),
            final(self)@ == (if r {
                let h = old(self)@.states[region_id];
                old(self)@.with(
                    region_id,
                    HomeView { readers: h.readers.insert(reader_node_id), ..h },
                )
            } else {
                old(self)@
            }),
    {
        let k: u128 = region_id.0 as u128;
        if !self.home_states.contains(k) {
            return false;
        }
        match self.home_states.get_mut(k) {
            Some(state) => {
                state.add_reader(reader_node_id);
            },
            None => {},
        }
        proof {
            Self::lemma_with(*old(self), *self, region_id);
        }
        true
    }

    /// Takes note that a node holds no copy of a region any more. Returns whether it was
    /// known to hold one.
    pub fn remove_reader(&mut self, region_id: RegionId, reader_node_id: u16) -> (r: bool)
        requires
            old(self).wf(),
        ensures
            final(self).wf(),
            r == (old(self)@.states.contains_key(region_id)
                && old(self)@.states[region_id].readers.contains(reader_node_id)),
            final(self)@ == (if r {
                let h = old(self)@.states[region_id];
                old(self)@.with(
                    region_id,
                    HomeView { readers: h.readers.remove(reader_node_id), ..h },
                )
            } else {
                old(self)@
            }),
    {
        let k: u128 = region_id.0 as u128;
        if !self.home_states.contains(k) {
            return false;
        }
        let mut found = false;
        match self.home_states.get_mut(k) {
            Some(state) => {
                found = state.remove_reader(reader_node_id);
            },
            None => {},
        }
        proof {
            Self::lemma_with(*old(self), *self, region_id);
            if !found {
                let h = old(self)@.states[region_id];
                assert(h.readers.remove(reader_node_id) =~= h.readers);
                assert(self@ =~= old(self)@);
            }
        }
        found
    }

    /// The epoch of a region.
    pub fn get_epoch(&self, region_id: RegionId) -> (r: Option<u64>)
        requires
            self.wf(),
        ensures
            r == (if self@.states.contains_key(region_id) {
                Some(self@.states[region_id].epoch)
            } else {
                None
            }),
    {
        match self.home_states.get(region_id.0 as u128) {
            Some(state) => Some(state.epoch),
            None => None,
        }
    }

    /// Moves a region to the next epoch and returns it.
    pub fn bump_epoch(&mut self, region_id: RegionId) -> (r: Option<u64>)
        requires
            old(self).wf(),
            old(self)@.states.contains_key(region_id) ==> old(self)@.states[region_id].epoch
                < u64::MAX,
        ensures
            final(self).wf(),
            if old(self)@.states.contains_key(region_id) {
                let h = old(self)@.states[region_id];
                r == Some((h.epoch + 1) as u64) && final(self)@ == old(self)@.with(
                    region_id,
                    h.bumped(),
                )
            } else {
                r is None && final(self)@ == old(self)@
            },
    {
        let k: u128 = region_id.0 as u128;
        if !self.home_states.contains(k) {
            return None;
        }
        let mut next: u64 = 0;
        match self.home_states.get_mut(k) {
            Some(state) => {
                next = state.bump_epoch();
            },
            None => {},
        }
        proof {
            Self::lemma_with(*old(self), *self, region_id);
        }
        Some(next)
    }

    /// Takes the write lock from every writer whose time is up. Returns the regions with the
    /// writers that lost it, in no particular order.
    pub fn check_lease_expiry(&mut self, now: u64) -> (r: Vec<(RegionId, u16)>)
        requires
            old(self).wf(),
            forall|id: RegionId| #[trigger]
                old(self)@.states.contains_key(id) && old(self)@.states[id].expired(now)
                    ==> old(self)@.states[id].epoch < u64::MAX,
        ensures
            final(self).wf(),
            final(self)@ == old(self)@.after_expiry(now),
            forall|i: int|
                0 <= i < r@.len() ==> {
                    let (id, node) = #[trigger] r@[i];
                    old(self)@.states.contains_key(id) && old(self)@.states[id].expired(now)
                        && old(self)@.states[id].written_by(node)
                },
            forall|id: RegionId| #[trigger]
                old(self)@.states.contains_key(id) && old(self)@.states[id].expired(now)
                    ==> exists|i: int| 0 <= i < r@.len() && (#[trigger] r@[i]).0 == id,
            forall|i: int, j: int|
                0 <= i < j < r@.len() ==> (#[trigger] r@[i]).0 != (#[trigger] r@[j]).0,
            forall|id: RegionId| #[trigger]
                old(self)@.states.contains_key(id) ==> match old(self)@.states[id].writer {
                    Some(w) => if now > w.lease_deadline {
                        &&& final(self)@.states[id].writer is None
                        &&& final(self)@.states[id].epoch == old(self)@.states[id].epoch + 1
                        &&& r@.contains((id, w.writer_node_id))
                    } else {
                        final(self)@.states[id] == old(self)@.states[id]
                    },
                    None => final(self)@.states[id] == old(self)@.states[id],
                },
    {
        let slots = self.home_states.keys();
        let ghost all = self@.states;
        let ghost first = *self;
        let ghost keys = self.home_states.key_seq();
        let mut out: Vec<(RegionId, u16)> = Vec::new();
        let mut i: usize = 0;
        while i < slots.len()
            invariant
                i <= slots@.len(),
                first.wf(),
                all == first@.states,
                keys == first.home_states.key_seq(),
                slots@ == keys,
                forall|id: RegionId| #[trigger]
                    all.contains_key(id) && all[id].expired(now) ==> all[id].epoch < u64::MAX,
                self.wf(),
                *self == (CoherenceManager { home_states: self.home_states, ..first }),
                self.home_states@.dom() == first.home_states@.dom(),
                forall|p: int|
                    0 <= p < keys.len() ==> self.home_states@[#[trigger] keys[p]]@ == ({
                        let h = first.home_states@[keys[p]]@;
                        if p < i && h.expired(now) {
                            h.released()
                        } else {
                            h
                        }
                    }),
                forall|q: int|
                    0 <= q < out@.len() ==> {
                        let (id, node) = #[trigger] out@[q];
                        all.contains_key(id) && all[id].expired(now) && all[id].written_by(node)
                            && exists|p: int| 0 <= p < i && #[trigger] keys[p] == id.0
                    },
                forall|p: int|
                    0 <= p < i && first.home_states@[#[trigger] keys[p]]@.expired(now)
                        ==> exists|q: int|
                        0 <= q < out@.len() && (#[trigger] out@[q]).0.0 == keys[p],
                forall|a: int, b: int|
                    0 <= a < b < out@.len() ==> (#[trigger] out@[a]).0 != (#[trigger] out@[b]).0,
            decreases slots@.len() - i,
        {
            let k: u128 = slots[i];
            let ghost before = *self;
            let ghost had = out@;
            proof {
                first.home_states.lemma_positions();
                assert(first.home_states@.contains_key(keys[i as int]));
                assert(self.home_states@.contains_key(k));
                assert(all.contains_key(RegionId(k as u64)));
                assert(self.home_states@[keys[i as int]]@ == first.home_states@[keys[i as int]]@);
            }
            let region_id = RegionId(k as u64);
            let mut loser: Option<u16> = None;
            match self.home_states.get_mut(k) {
                Some(state) => {
                    if let Some(info) = state.writer {
                        if now > info.lease_deadline {
                            state.writer = None;
                            state.bump_epoch();
                            loser = Some(info.writer_node_id);
                        }
                    }
                },
                None => {},
            }
            proof {
                Self::lemma_with(before, *self, region_id);
                assert(self.home_states@.dom() =~= first.home_states@.dom());
                assert forall|p: int| 0 <= p < keys.len() implies self.home_states@[
                    #[trigger] keys[p]
                ]@ == ({
                    let h = first.home_states@[keys[p]]@;
                    if p < i + 1 && h.expired(now) {
                        h.released()
                    } else {
                        h
                    }
                }) by {
                    if p != i {
                        assert(keys[p] != keys[i as int]);
                        assert(before.home_states@[keys[p]] == self.home_states@[keys[p]]);
                    }
                }
            }
            if let Some(node) = loser {
                out.push((region_id, node));
            }
            proof {
                assert forall|q: int| 0 <= q < out@.len() implies {
                    let (id, node) = #[trigger] out@[q];
                    all.contains_key(id) && all[id].expired(now) && all[id].written_by(node)
                        && exists|p: int| 0 <= p < i + 1 && #[trigger] keys[p] == id.0
                } by {
                    if q < had.len() {
                        assert(out@[q] == had[q]);
                        let id = had[q].0;
                        let p = choose|p: int| 0 <= p < i && #[trigger] keys[p] == id.0;
                        assert(keys[p] == id.0);
                    } else {
                        assert(keys[i as int] == region_id.0);
                    }
                }
                assert forall|p: int|
                    0 <= p < i + 1 && first.home_states@[#[trigger] keys[p]]@.expired(
                        now,
                    ) implies exists|q: int|
                    0 <= q < out@.len() && (#[trigger] out@[q]).0.0 == keys[p] by {
                    if p < i {
                        let q = choose|q: int|
                            0 <= q < had.len() && (#[trigger] had[q]).0.0 == keys[p];
                        assert(out@[q] == had[q]);
                    } else {
                        assert(out@[had.len() as int].0.0 == keys[p]);
                    }
                }
                assert forall|a: int, b: int| 0 <= a < b < out@.len() implies (
                #[trigger] out@[a]).0 != (#[trigger] out@[b]).0 by {
                    if b == had.len() {
                        assert(out@[a] == had[a]);
                        let id = had[a].0;
                        let p = choose|p: int| 0 <= p < i && #[trigger] keys[p] == id.0;
                        assert(keys[p] != keys[i as int]);
                    } else {
                        assert(out@[a] == had[a] && out@[b] == had[b]);
                    }
                }
            }
            i = i + 1;
        }
        proof {
            first.home_states.lemma_positions();
            assert forall|id: RegionId| #[trigger] all.contains_key(id) implies exists|p: int|
                0 <= p < keys.len() && #[trigger] keys[p] == id.0 by {
                assert(first.home_states@.contains_key(id.0 as u128));
            }
            assert forall|id: RegionId| #[trigger] all.contains_key(id) && all[id].expired(
                now,
            ) implies exists|q: int| 0 <= q < out@.len() && (#[trigger] out@[q]).0 == id by {
                let p = choose|p: int| 0 <= p < keys.len() && #[trigger] keys[p] == id.0;
                assert(first.home_states@[keys[p]]@.expired(now));
                let q = choose|q: int|
                    0 <= q < out@.len() && (#[trigger] out@[q]).0.0 == keys[p];
                assert(out@[q].0 == id);
            }
            assert(self@.states =~= first@.after_expiry(now).states) by {
                assert forall|id: RegionId| #[trigger] all.contains_key(id) implies self@.states[id]
                    == first@.after_expiry(now).states[id] by {
                    let p = choose|p: int| 0 <= p < keys.len() && #[trigger] keys[p] == id.0;
                    assert(self.home_states@[keys[p]]@ == self@.states[id]);
                }
            }
            assert(self@ =~= first@.after_expiry(now));
            assert forall|id: RegionId| #[trigger] all.contains_key(id) && all[id].expired(
                now,
            ) implies out@.contains((id, all[id].writer->0.writer_node_id)) by {
                let q = choose|q: int| 0 <= q < out@.len() && (#[trigger] out@[q]).0 == id;
                assert(out@[q] == (id, all[id].writer->0.writer_node_id));
            }
        }
        out
    }

    /// The writer of a region.
    pub fn get_writer(&self, region_id: RegionId) -> (r: Option<WriterInfo>)
        requires
            self.wf(),
        ensures
            r == (if self@.states.contains_key(region_id) {
                self@.states[region_id].writer
            } else {
                None
            }),
    {
        match self.home_states.get(region_id.0 as u128) {
            Some(state) => state.writer,
            None => None,
        }
    }

    /// The nodes that hold copies of a region.
    pub fn get_readers(&self, region_id: RegionId) -> (r: HashSet<u16>)
        requires
            self.wf(),
        ensures
            r@ == (if self@.states.contains_key(region_id) {
                self@.states[region_id].readers
            } else {
                Set::empty()
            }),
    {
        match self.home_states.get(region_id.0 as u128) {
            Some(state) => state.reader_nodes(),
            None => HashSet::new(),
        }
    }

    /// How long a write lock lasts, in milliseconds.
    pub fn writer_lease_ms(&self) -> (r: u64)
        ensures
            r == self@.lease_ms,
    {
        self.writer_lease_ms
    }

    /// Every region with its epoch, its writer and the nodes that hold copies, in no
    /// particular order.
    pub fn list_regions(&self) -> (r: Vec<(RegionId, u64, Option<u16>, HashSet<u16>)>)
        requires
            self.wf(),
        ensures
            forall|i: int|
                0 <= i < r@.len() ==> {
                    let row = #[trigger] r@[i];
                    self@.states.contains_key(row.0) && (row.0, row.1, row.2, row.3@) == row_of(
                        row.0,
                        self@.states[row.0],
                    )
                },
            forall|id: RegionId| #[trigger]
                self@.states.contains_key(id) ==> exists|i: int|
                    0 <= i < r@.len() && (#[trigger] r@[i]).0 == id,
            forall|i: int, j: int|
                0 <= i < j < r@.len() ==> (#[trigger] r@[i]).0 != (#[trigger] r@[j]).0,
    {
        let n: usize = self.home_states.len();
        let ghost keys = self.home_states.key_seq();
        let mut out: Vec<(RegionId, u64, Option<u16>, HashSet<u16>)> = Vec::new();
        let mut i: usize = 0;
        while i < n
            invariant
                i <= n,
                n == keys.len(),
                keys == self.home_states.key_seq(),
                self.wf(),
                out@.len() == i,
                forall|p: int|
                    0 <= p < i ==> {
                        let row = #[trigger] out@[p];
                        row.0.0 == keys[p] && self@.states.contains_key(row.0) && (
                            row.0,
                            row.1,
                            row.2,
                            row.3@,
                        ) == row_of(row.0, self@.states[row.0])
                    },
            decreases n - i,
        {
            proof {
                self.home_states.lemma_positions();
                assert(self.home_states@.contains_key(keys[i as int]));
            }
            let k: u128 = self.home_states.key_at(i);
            let state = self.home_states.val_at(i);
            let writer_node: Option<u16> = match state.writer {
                Some(w) => Some(w.writer_node_id),
                None => None,
            };
            let id = RegionId(k as u64);
            assert(self@.states.contains_key(id));
            out.push((id, state.epoch, writer_node, state.reader_nodes()));
            i = i + 1;
        }
        proof {
            self.home_states.lemma_positions();
            assert forall|id: RegionId| #[trigger] self@.states.contains_key(id) implies exists|
                p: int,
            | 0 <= p < out@.len() && (#[trigger] out@[p]).0 == id by {
                let k = id.0 as u128;
                assert(self.home_states@.contains_key(k));
                let p = choose|p: int|
                    0 <= p < keys.len() && keys[p] == k && self.home_states.val_seq()[p]
                        == self.home_states@[k];
                assert(out@[p].0 == id);
            }
        }
        out
    }
}

/// A write lock that a node holds.
#[derive(Debug)]
pub struct WriterGuard {
    pub va: UbVa,
    pub region_id: RegionId,
    pub home_node_id: u16,
    pub writer_node_id: u16,
    pub epoch: u64,
    pub released: bool,
}

impl WriterGuard {
    pub fn new(va: UbVa, region_id: RegionId, home_node_id: u16, writer_node_id: u16, epoch: u64) -> (r:
        Self)
        ensures
            r == (WriterGuard {
                va,
                region_id,
                home_node_id,
                writer_node_id,
                epoch,
                released: false,
            }),
    {
        WriterGuard { va, region_id, home_node_id, writer_node_id, epoch, released: false }
    }

    /// Gives the write lock back, once. Returns whether the node held it.
    pub fn release(&mut self, coherence: &mut CoherenceManager) -> (r: bool)
        requires
            old(coherence).wf(),
            !old(self).released && old(coherence)@.states.contains_key(old(self).region_id)
                && old(coherence)@.states[old(self).region_id].written_by(old(self).writer_node_id)
                ==> old(coherence)@.states[old(self).region_id].epoch < u64::MAX,
        ensures
            final(coherence).wf(),
            *final(self) == (WriterGuard { released: true, ..*old(self) }),
            r == (!old(self).released && old(coherence)@.states.contains_key(old(self).region_id)
                && old(coherence)@.states[old(self).region_id].written_by(
                old(self).writer_node_id,
            )),
            final(coherence)@ == (if r {
                old(coherence)@.with(
                    old(self).region_id,
                    old(coherence)@.states[old(self).region_id].released(),
                )
            } else {
                old(coherence)@
            }),
    {
        if self.released {
            return false;
        }
        self.released = true;
        coherence.release_writer(self.region_id, self.writer_node_id)
    }

    /// Whether the write lock was given back.
    pub fn is_released(&self) -> (r: bool)
        ensures
            r == self.released,
    {
        self.released
    }
}

} // verus!
