//! Sorting of arriving packets by the peer they come from. Peers are numbered by the caller.
use crate::table::Table;
use crate::wire::byte_views;
use vstd::prelude::*;

verus! {

/// What to do with an arrived packet.
#[derive(Debug)]
pub enum Arrived {
    /// Hand it to the session with the peer.
    Forward(Vec<u8>),
    /// It waits; tell that there is a peer to accept.
    Announce,
}

/// What a `Demux` holds.
#[verifier::ext_equal]
pub struct DemuxView {
    /// The peers with a session.
    pub open: Set<u64>,
    /// The packets of other peers that wait, in the order of their arrival.
    pub waiting: Map<u64, Seq<Seq<u8>>>,
}

impl DemuxView {
    /// The packets of a peer that wait.
    pub open spec fn waiting_of(self, peer: u64) -> Seq<Seq<u8>> {
        if self.waiting.contains_key(peer) {
            self.waiting[peer]
        } else {
            Seq::empty()
        }
    }

    /// After a packet of a peer arrived.
    pub open spec fn after_packet(self, peer: u64, packet: Seq<u8>) -> Self {
        if self.open.contains(peer) {
            self
        } else {
            DemuxView {
                waiting: self.waiting.insert(peer, self.waiting_of(peer).push(packet)),
                ..self
            }
        }
    }

    /// After packets of a peer arrived.
    pub open spec fn after_packets(self, peer: u64, packets: Seq<Seq<u8>>) -> Self
        decreases packets.len(),
    {
        if packets.len() == 0 {
            self
        } else {
            self.after_packets(peer, packets.drop_last()).after_packet(peer, packets.last())
        }
    }

    /// After the session with a peer was opened and what waited handed over.
    pub open spec fn after_accept(self, peer: u64) -> Self {
        DemuxView { open: self.open.insert(peer), waiting: self.waiting.remove(peer) }
    }

    /// What arrives before a peer is accepted is kept for it, in the order of arrival, and
    /// what other peers sent is left alone.
    pub proof fn lemma_kept_in_order(self, peer: u64, packets: Seq<Seq<u8>>, other: u64)
        requires
            !self.open.contains(peer),
            other != peer,
        ensures
            self.after_packets(peer, packets).waiting_of(peer) == self.waiting_of(peer) + packets,
            self.after_packets(peer, packets).waiting_of(other) == self.waiting_of(other),
            self.after_packets(peer, packets).open == self.open,
        decreases packets.len(),
    {
        if packets.len() == 0 {
            assert(self.waiting_of(peer) + packets =~= self.waiting_of(peer));
        } else {
            self.lemma_kept_in_order(peer, packets.drop_last(), other);
            assert(packets =~= packets.drop_last().push(packets.last()));
            assert(self.waiting_of(peer) + packets =~= (self.waiting_of(peer)
                + packets.drop_last()).push(packets.last()));
        }
    }
}

impl DemuxView {
    /// Accepting a peer opens its session and leaves nothing of it waiting; from then on its
    /// packets do not wait. Other peers are left alone.
    pub proof fn lemma_accepted(self, peer: u64, packet: Seq<u8>, other: u64)
        requires
            other != peer,
        ensures
            self.after_accept(peer).open.contains(peer),
            self.after_accept(peer).waiting_of(peer).len() == 0,
            self.after_accept(peer).after_packet(peer, packet) == self.after_accept(peer),
            self.after_accept(peer).open.contains(other) == self.open.contains(other),
            self.after_accept(peer).waiting_of(other) == self.waiting_of(other),
            !self.open.contains(peer) ==> self.after_packet(peer, packet).waiting_of(peer).last()
                == packet,
            self.after_packet(peer, packet).waiting_of(other) == self.waiting_of(other),
            self.after_packet(peer, packet).open == self.open,
    {
    }
}

/// Which peers have a session, and what waits for those that have none yet.
pub struct Demux {
    sessions: Table<bool>,
    pending: Table<Vec<Vec<u8>>>,
}

impl View for Demux {
    type V = DemuxView;

    closed spec fn view(&self) -> DemuxView {
        DemuxView {
            open: Set::new(|p: u64| self.sessions@.contains_key(p as u128)),
            waiting: Map::new(
                |p: u64| self.pending@.contains_key(p as u128),
                |p: u64| byte_views(self.pending@[p as u128]@),
            ),
        }
    }
}

impl Demux {
    pub closed spec fn wf(&self) -> bool {
        self.sessions.wf() && self.pending.wf()
    }

    /// Nothing has arrived and no session is open.
    pub fn new() -> (r: Self)
        ensures
            r.wf(),
            r@ == (DemuxView { open: Set::empty(), waiting: Map::empty() }),
    {
        let r = Demux { sessions: Table::new(), pending: Table::new() };
        proof {
            assert(r@.open =~= Set::empty());
            assert(r@.waiting =~= Map::empty());
        }
        r
    }

    /// Takes a packet of a peer: for its session, or to wait where there is none.
    pub fn arrived(&mut self, peer: u64, packet: Vec<u8>) -> (r: Arrived)
        requires
            old(self).wf(),
        ensures
            final(self).wf(),
            final(self)@ == old(self)@.after_packet(peer, packet@),
            match r {
                Arrived::Forward(p) => old(self)@.open.contains(peer) && p@ == packet@,
                Arrived::Announce => !old(self)@.open.contains(peer),
            },
    {
        let key: u128 = peer as u128;
        if self.sessions.contains(key) {
            return Arrived::Forward(packet);
        }
        let mut held: Vec<Vec<u8>> = match self.pending.remove(key) {
            Some(v) => v,
            None => Vec::new(),
        };
        let ghost before = held@;
        held.push(packet);
        self.pending.insert(key, held);
        proof {
            assert(byte_views(held@) =~= byte_views(before).push(packet@));
            assert(old(self)@.waiting_of(peer) =~= byte_views(before));
            assert(self@.open =~= old(self)@.open);
            assert(self@.waiting =~= old(self)@.waiting.insert(peer, byte_views(held@)));
        }
        Arrived::Announce
    }

    /// Opens the session with a peer that was announced. Returns the packets that waited.
    pub fn accept(&mut self, peer: u64) -> (r: Vec<Vec<u8>>)
        requires
            old(self).wf(),
        ensures
            final(self).wf(),
            byte_views(r@) == old(self)@.waiting_of(peer),
            final(self)@ == old(self)@.after_accept(peer),
    {
        let key: u128 = peer as u128;
        self.sessions.insert(key, true);
        let held: Vec<Vec<u8>> = match self.pending.remove(key) {
            Some(v) => v,
            None => Vec::new(),
        };
        proof {
            assert(byte_views(held@) =~= old(self)@.waiting_of(peer));
            assert(self@.open =~= old(self)@.open.insert(peer));
            assert(self@.waiting =~= old(self)@.waiting.remove(peer));
        }
        held
    }

    /// Opens a session with a peer. What waited of it goes on waiting.
    pub fn dial(&mut self, peer: u64)
        requires
            old(self).wf(),
        ensures
            final(self).wf(),
            final(self)@ == (DemuxView { open: old(self)@.open.insert(peer), ..old(self)@ }),
    {
        self.sessions.insert(peer as u128, true);
        proof {
            assert(self@.open =~= old(self)@.open.insert(peer));
            assert(self@.waiting =~= old(self)@.waiting);
        }
    }

    /// Forgets the session with a peer.
    pub fn close(&mut self, peer: u64)
        requires
            old(self).wf(),
        ensures
            final(self).wf(),
            final(self)@ == (DemuxView { open: old(self)@.open.remove(peer), ..old(self)@ }),
    {
        self.sessions.remove(peer as u128);
        proof {
            assert(self@.open =~= old(self)@.open.remove(peer));
            assert(self@.waiting =~= old(self)@.waiting);
        }
    }
}

} // verus!
