//! The transport of a node: reliable sessions with its peers, acknowledgement and credit
//! frames, and retransmission.
use crate::codec::{
    ack_bytes, ack_to_vec, credit_bytes, credit_to_vec, decode_ack_payload, decode_credit_payload,
    decode_frame, frame_bytes, frame_to_vec, lemma_ack_round_trip, lemma_credit_round_trip,
    lemma_frame_round_trip, parse_ack, parse_credit, parse_frame,
};
use crate::config::{FlowConfig, TransportConfig};
use crate::error::UbError;
use crate::frame::{
    AckPayload, AckView, CreditPayload, DataExtHeader, FrameFlags, FrameHeader, FrameType, OutFrame,
    MAGIC, VERSION,
};
use crate::read_cache::{cache_key, CacheKey};
use crate::session::{
    after_credits, clamp_rto, due_frames, lemma_due, lemma_due_is, lemma_is_due, samples_of, stamped,
    ReceiveAction, ReliableSession, RetransmitEntry, SessionKey, SessionState,
};
use crate::table::Table;
use crate::text::{dec_text, push_dec};
use crate::types::Verb;
use vstd::prelude::*;
use vstd::slice::slice_to_vec;

verus! {

/// A data frame that has arrived and is to be processed.
#[derive(Debug)]
pub struct InboundFrame {
    pub header: FrameHeader,
    pub ext: DataExtHeader,
    pub payload: Vec<u8>,
    pub seq: u64,
}

/// Round-trip times, in milliseconds, measured on a session.
#[derive(Debug)]
pub struct RttReport {
    pub remote_node: u16,
    pub epoch: u32,
    pub samples: Vec<u64>,
}

/// What to do about an arrived frame: process it, send a frame back, take note of
/// round-trip times.
#[derive(Debug)]
pub struct Arrival {
    pub delivered: Option<InboundFrame>,
    pub reply: Option<OutFrame>,
    pub report: Option<RttReport>,
}

/// The header of a frame without extension header.
pub open spec fn plain_header(frame_type: FrameType, flags: FrameFlags, src: u16, dst: u16) -> FrameHeader {
    FrameHeader {
        magic: MAGIC,
        version: VERSION,
        frame_type,
        flags,
        src_node: src,
        dst_node: dst,
        reserved: 0,
        stream_seq: 0,
        payload_len: 0,
        header_crc: 0,
    }
}

/// The bytes of an acknowledgement frame.
pub open spec fn ack_frame(local: u16, remote: u16, ack: AckView) -> Seq<u8> {
    frame_bytes(
        plain_header(
            FrameType::Ack,
            FrameFlags::of_bits(
                if ack.sack is Some {
                    0x20
                } else {
                    0
                },
            ),
            local,
            remote,
        ),
        None,
        ack_bytes(ack),
    )
}

/// The bytes of a credit frame.
pub open spec fn credit_frame(local: u16, remote: u16, credits: u32) -> Seq<u8> {
    frame_bytes(
        plain_header(FrameType::Credit, FrameFlags::of_bits(0), local, remote),
        None,
        credit_bytes(CreditPayload { credits, reserved: 0 }),
    )
}

/// Whether the flags of a frame announce a selective acknowledgement.
pub open spec fn says_sack(flags: FrameFlags) -> bool {
    flags.spec_bits() & 0x20 == 0x20
}

/// An acknowledgement frame tells its receiver what was put into it.
pub proof fn lemma_ack_frame(local: u16, remote: u16, ack: AckView)
    requires
        ack.sack matches Some(b) ==> b.len() == 32,
    ensures
        ({
            let p = parse_frame(ack_frame(local, remote, ack));
            &&& p is Ok
            &&& p->Ok_0.0.frame_type == FrameType::Ack
            &&& p->Ok_0.0.stream_seq == 0
            &&& p->Ok_0.0.src_node == local
            &&& p->Ok_0.0.dst_node == remote
            &&& says_sack(p->Ok_0.0.flags) == (ack.sack is Some)
            &&& parse_ack(p->Ok_0.2, says_sack(p->Ok_0.0.flags)) == Ok::<AckView, Seq<char>>(ack)
        }),
{
    broadcast use FrameFlags::lemma_truncated;

    let bits: u16 = if ack.sack is Some {
        0x20
    } else {
        0
    };
    assert(0x20u16 & 0x7F == 0x20 && 0u16 & 0x7F == 0 && 0x20u16 & 0x20 == 0x20 && 0u16 & 0x20
        == 0) by (bit_vector);
    let flags = FrameFlags::of_bits(bits);
    assert(flags.spec_bits() == bits);
    lemma_frame_round_trip(
        plain_header(FrameType::Ack, flags, local, remote),
        None,
        ack_bytes(ack),
    );
    lemma_ack_round_trip(ack);
}

/// A credit frame tells its receiver what was put into it.
pub proof fn lemma_credit_frame(local: u16, remote: u16, credits: u32)
    ensures
        ({
            let p = parse_frame(credit_frame(local, remote, credits));
            &&& p is Ok
            &&& p->Ok_0.0.frame_type == FrameType::Credit
            &&& p->Ok_0.0.stream_seq == 0
            &&& p->Ok_0.0.src_node == local
            &&& p->Ok_0.0.dst_node == remote
            &&& parse_credit(p->Ok_0.2) == Ok::<CreditPayload, Seq<char>>(
                CreditPayload { credits, reserved: 0 },
            )
        }),
{
    broadcast use FrameFlags::lemma_truncated;

    assert(0u16 & 0x7F == 0) by (bit_vector);
    let flags = FrameFlags::of_bits(0);
    assert(flags.spec_bits() == 0);
    let p = CreditPayload { credits, reserved: 0 };
    lemma_frame_round_trip(
        plain_header(FrameType::Credit, flags, local, remote),
        None,
        credit_bytes(p),
    );
    lemma_credit_round_trip(p);
}

/// Builds an acknowledgement frame.
pub fn build_ack_frame(local_node: u16, remote_node: u16, ack: &AckPayload) -> (r: Vec<u8>)
    ensures
        r@ == ack_frame(local_node, remote_node, ack@),
{
    let flags = if ack.sack_bitmap.is_some() {
        FrameFlags::has_sack()
    } else {
        FrameFlags::empty()
    };
    let header = FrameHeader {
        magic: MAGIC,
        version: VERSION,
        frame_type: FrameType::Ack,
        flags,
        src_node: local_node,
        dst_node: remote_node,
        reserved: 0,
        stream_seq: 0,
        payload_len: 0,
        header_crc: 0,
    };
    let payload = ack_to_vec(ack);
    frame_to_vec(&header, None, payload.as_slice())
}

/// Builds a credit frame.
pub fn build_credit_frame(local_node: u16, remote_node: u16, credits: u32) -> (r: Vec<u8>)
    ensures
        r@ == credit_frame(local_node, remote_node, credits),
{
    let header = FrameHeader {
        magic: MAGIC,
        version: VERSION,
        frame_type: FrameType::Credit,
        flags: FrameFlags::empty(),
        src_node: local_node,
        dst_node: remote_node,
        reserved: 0,
        stream_seq: 0,
        payload_len: 0,
        header_crc: 0,
    };
    let payload = credit_to_vec(&CreditPayload { credits, reserved: 0 });
    frame_to_vec(&header, None, payload.as_slice())
}

/// What a `TransportManager` holds.
#[verifier::ext_equal]
pub struct TransportView {
    pub local: u16,
    /// Sessions by remote node and epoch.
    pub sessions: Map<(u16, u32), ReliableSession>,
    /// The current epoch of each remote node.
    pub epochs: Map<u16, u32>,
    /// Nodes that frames can be sent to.
    pub peers: Set<u16>,
    pub config: TransportConfig,
}

impl TransportView {
    /// The session that frames from a node belong to, under its current epoch, or epoch 0
    /// where none is known.
    pub open spec fn current(self, remote: u16) -> (u16, u32) {
        (
            remote,
            if self.epochs.contains_key(remote) {
                self.epochs[remote]
            } else {
                0
            },
        )
    }

    /// Whether there is a session for the current epoch of a node.
    pub open spec fn linked(self, remote: u16) -> bool {
        self.epochs.contains_key(remote) && self.sessions.contains_key(self.current(remote))
    }

    /// The session for the current epoch of a node.
    pub open spec fn session(self, remote: u16) -> ReliableSession {
        self.sessions[self.current(remote)]
    }

    /// Whether there is an active session with a node that frames can be sent to.
    pub open spec fn serves(self, remote: u16) -> bool {
        &&& self.sessions.contains_key(self.current(remote))
        &&& self.session(remote).state == SessionState::Active
        &&& self.session(remote).dedup@.wf()
        &&& self.session(remote).dedup@.window == 1024
        &&& self.peers.contains(remote)
    }

    /// Whether there is an active session with a node, in which the same frames have been
    /// received.
    pub open spec fn receives_like(self, other: Self, remote: u16) -> bool {
        self.serves(remote) && self.session(remote).dedup@ == other.session(remote).dedup@
    }

    /// This transport with another session under a key.
    pub open spec fn with(self, key: (u16, u32), s: ReliableSession) -> Self {
        TransportView { sessions: self.sessions.insert(key, s), ..self }
    }

    /// Whether a frame can be sent to a node without a number running over.
    pub open spec fn can_send(self, remote: u16, now: u64) -> bool {
        self.linked(remote) && self.session(remote).state == SessionState::Active && self.session(
            remote,
        ).available_credits > 0 ==> self.session(remote).next_seq < u64::MAX && now + self.session(
            remote,
        ).rto <= u64::MAX
    }

    /// Whether a data frame from a node can be taken in without a counter running over.
    pub open spec fn can_take_data(self, remote: u16, seq: u64) -> bool {
        seq != 0 && self.sessions.contains_key(self.current(remote)) && self.session(remote).state
            == SessionState::Active ==> self.session(remote).can_receive(seq)
    }

    /// Whether the bytes of a frame can be taken in without a number running over.
    pub open spec fn ready_for(self, raw: Seq<u8>) -> bool {
        match parse_frame(raw) {
            Ok((h, ext, _)) => h.frame_type == FrameType::Data && ext is Some
                ==> self.can_take_data(h.src_node, h.stream_seq),
            Err(_) => true,
        }
    }

    /// Whether `delivered` and `reply` are what an arrived data frame brings about and
    /// `after` what it leaves behind.
    pub open spec fn data_taken(
        self,
        header: FrameHeader,
        ext: DataExtHeader,
        payload: Seq<u8>,
        delivered: Option<InboundFrame>,
        reply: Option<OutFrame>,
        after: Self,
    ) -> bool {
        let remote = header.src_node;
        let seq = header.stream_seq;
        let key = self.current(remote);
        let s = self.sessions[key];
        &&& delivered matches Some(f) ==> f.header == header && f.ext == ext && f.payload@
            == payload && f.seq == seq
        &&& if seq == 0 || !self.sessions.contains_key(key) {
            delivered is Some && reply is None && after == self
        } else if s.state != SessionState::Active {
            delivered is None && reply is None && after == self
        } else {
            let t = after.sessions[key];
            let action = s.action_for(seq);
            let gap = action == ReceiveAction::OutOfOrder;
            &&& after == self.with(key, t)
            &&& delivered is Some == (action == ReceiveAction::Deliver || (action
                == ReceiveAction::Duplicate && is_request(ext.verb)))
            &&& exists|mid: ReliableSession| #[trigger]
                s.taken_in(mid, seq) && if acks(action, mid) {
                    &&& t == mid.after_ack()
                    &&& reply is Some == self.peers.contains(remote)
                    &&& reply matches Some(out) ==> exists|ack: AckView| #[trigger]
                        mid.acknowledges(gap, ack) && out@ == (
                            remote,
                            ack_frame(self.local, remote, ack),
                        )
                } else {
                    t == mid && reply is None
                }
        }
    }

    /// Whether `report` is what an acknowledgement frame tells, and `after` what it leaves
    /// behind.
    pub open spec fn ack_taken(
        self,
        header: FrameHeader,
        payload: Seq<u8>,
        now: u64,
        report: Option<RttReport>,
        after: Self,
    ) -> bool {
        let remote = header.src_node;
        let key = self.current(remote);
        match parse_ack(payload, says_sack(header.flags)) {
            Ok(ack) if self.sessions.contains_key(key) => {
                let s = self.sessions[key];
                let t = after.sessions[key];
                &&& after == self.with(key, t)
                &&& s.acked(t, ack)
                &&& report matches Some(r) && r.remote_node == remote && r.epoch == key.1
                    && r.samples@ == (if s.advances(ack) {
                    samples_of(s.retransmit_queue@, ack.ack_seq, now)
                } else {
                    Seq::empty()
                })
            },
            _ => report is None && after == self,
        }
    }

    /// This transport after a credit frame.
    pub open spec fn after_credit(self, header: FrameHeader, payload: Seq<u8>) -> Self {
        let key = self.current(header.src_node);
        match parse_credit(payload) {
            Ok(credit) if self.sessions.contains_key(key) => {
                let s = self.sessions[key];
                self.with(
                    key,
                    ReliableSession {
                        available_credits: after_credits(s.available_credits, credit.credits),
                        ..s
                    },
                )
            },
            _ => self,
        }
    }
}

impl TransportView {
    /// Frames of a node belong to the session under the epoch that is known of it, or under
    /// epoch 0; one can be sent where an epoch is known and has a session. A change of one
    /// session changes no other.
    pub proof fn lemma_sessions_apart(
        self,
        remote: u16,
        key: (u16, u32),
        s: ReliableSession,
        other: (u16, u32),
    )
        requires
            other != key,
        ensures
            self.epochs.contains_key(remote) ==> self.current(remote) == (
                remote,
                self.epochs[remote],
            ),
            !self.epochs.contains_key(remote) ==> self.current(remote) == (remote, 0u32),
            self.linked(remote) <==> self.epochs.contains_key(remote) && self.sessions.contains_key(
                (remote, self.epochs[remote]),
            ),
            self.with(key, s).sessions[key] == s,
            self.with(key, s).sessions.contains_key(other) == self.sessions.contains_key(other),
            self.with(key, s).sessions[other] == self.sessions[other],
            self.with(key, s).epochs == self.epochs,
            self.with(key, s).peers == self.peers,
    {
    }

    /// A credit frame adds its credits to the session that its node belongs to, up to the
    /// largest number, and changes nothing else.
    pub proof fn lemma_credit_taken(self, remote: u16, credits: u32, other: (u16, u32))
        requires
            self.sessions.contains_key(self.current(remote)),
            other != self.current(remote),
        ensures
            ({
                let frame = parse_frame(credit_frame(remote, self.local, credits))->Ok_0;
                let after = self.after_credit(frame.0, frame.2);
                let s = self.session(remote);
                let t = after.session(remote);
                &&& s.available_credits + credits <= u32::MAX ==> t.available_credits
                    == s.available_credits + credits
                &&& s.available_credits + credits > u32::MAX ==> t.available_credits == u32::MAX
                &&& t.cwnd == s.cwnd && t.retransmit_queue == s.retransmit_queue && t.dedup
                    == s.dedup && t.next_seq == s.next_seq && t.state == s.state
                &&& after.sessions[other] == self.sessions[other]
                &&& after.epochs == self.epochs
            }),
    {
        lemma_credit_frame(remote, self.local, credits);
        let frame = parse_frame(credit_frame(remote, self.local, credits))->Ok_0;
        assert(self.after_credit(frame.0, frame.2).current(remote) == self.current(remote));
    }
}

/// A frame of a session that was delivered, or acknowledged as received, is not delivered
/// again when it arrives once more, unless it is a request, which is answered anew.
pub proof fn lemma_no_second_delivery(
    a: TransportView,
    first: (FrameHeader, DataExtHeader, Seq<u8>),
    delivered: Option<InboundFrame>,
    reply: Option<OutFrame>,
    b: TransportView,
    second: (FrameHeader, DataExtHeader, Seq<u8>),
    again: Option<InboundFrame>,
    answer: Option<OutFrame>,
    c: TransportView,
)
    requires
        a.sessions.contains_key(a.current(first.0.src_node)),
        a.session(first.0.src_node).wf(),
        a.session(first.0.src_node).state == SessionState::Active,
        first.0.stream_seq != 0,
        a.data_taken(first.0, first.1, first.2, delivered, reply, b),
        delivered is Some || a.session(first.0.src_node).action_for(first.0.stream_seq)
            != ReceiveAction::BeyondWindow,
        second.0.src_node == first.0.src_node,
        second.0.stream_seq == first.0.stream_seq,
        !(second.1.verb is ReadReq || second.1.verb is AtomicCas || second.1.verb is AtomicFaa),
        b.data_taken(second.0, second.1, second.2, again, answer, c),
    ensures
        again is None,
{
    let key = a.current(first.0.src_node);
    let seq = first.0.stream_seq;
    let s = a.sessions[key];
    let mid = choose|mid: ReliableSession| #[trigger]
        s.taken_in(mid, seq) && (b.sessions[key] == mid || b.sessions[key] == mid.after_ack());
    assert(b.sessions[key].dedup == mid.dedup);
    assert(b.current(first.0.src_node) == key);
    s.dedup.lemma_wf();
    if s.dedup@.marked(seq as int, mid.dedup@) {
        s.dedup@.lemma_marked_received(seq as int, mid.dedup@, seq as int);
    }
}

/// A data frame that was handled: what it found, what it brought about and what it left
/// behind.
pub struct DataCall {
    pub before: TransportView,
    pub header: FrameHeader,
    pub ext: DataExtHeader,
    pub payload: Seq<u8>,
    pub delivered: Option<InboundFrame>,
    pub reply: Option<OutFrame>,
    pub after: TransportView,
}

impl DataCall {
    /// Whether `delivered`, `reply` and `after` are what the frame brings about.
    #[verifier::opaque]
    pub open spec fn happened(self) -> bool {
        self.before.data_taken(
            self.header,
            self.ext,
            self.payload,
            self.delivered,
            self.reply,
            self.after,
        )
    }

    /// The sequence number that the node's session expects next.
    pub open spec fn expected(self) -> int {
        self.before.session(self.header.src_node).dedup@.next
    }

    /// Whether the frame is answered with an acknowledgement frame to its node.
    #[verifier::opaque]
    pub open spec fn is_acknowledged(self) -> bool {
        self.reply matches Some(out) && exists|ack: AckView|
            out@ == (
                self.header.src_node,
                #[trigger] ack_frame(self.before.local, self.header.src_node, ack),
            )
    }

    /// Whether the frame was received before.
    pub open spec fn repeats(self) -> bool {
        self.before.session(self.header.src_node).dedup@.received(self.header.stream_seq as int)
    }
}

/// Whether these are data frames that were handled one after the other. In between the
/// session with `remote` may send and take acknowledgements, but receives nothing.
pub open spec fn in_turn(calls: Seq<DataCall>, remote: u16) -> bool {
    &&& forall|i: int| 0 <= i < calls.len() ==> (#[trigger] calls[i]).happened()
    &&& forall|i: int|
        0 < i < calls.len() ==> (#[trigger] calls[i]).before.receives_like(
            calls[i - 1].after,
            remote,
        )
}

/// A handled frame leaves the session with a node in service, and what was received stays
/// received.
proof fn lemma_call_serves(c: DataCall, remote: u16)
    requires
        c.happened(),
        c.before.serves(remote),
    ensures
        c.after.serves(remote),
        forall|q: int| #[trigger]
            c.before.session(remote).dedup@.received(q) ==> c.after.session(remote).dedup@.received(
                q,
            ),
        c.header.src_node == remote && c.header.stream_seq == c.expected() && c.header.stream_seq
            != 0 ==> c.after.session(remote).dedup@.received(c.header.stream_seq as int),
{
    reveal(DataCall::happened);
    let key = c.before.current(c.header.src_node);
    let seq = c.header.stream_seq;
    if seq != 0 && c.before.sessions.contains_key(key) && c.before.sessions[key].state
        == SessionState::Active {
        let s = c.before.sessions[key];
        let mid = choose|mid: ReliableSession| #[trigger]
            s.taken_in(mid, seq) && (c.after.sessions[key] == mid || c.after.sessions[key]
                == mid.after_ack());
        assert(c.after.sessions[key].dedup == mid.dedup);
        if c.header.src_node == remote && s.dedup@.marked(seq as int, mid.dedup@) {
            assert forall|q: int| #[trigger] s.dedup@.received(q) implies mid.dedup@.received(q) by {
                s.dedup@.lemma_marked_received(seq as int, mid.dedup@, q);
            }
            s.dedup@.lemma_marked_received(seq as int, mid.dedup@, seq as int);
        }
    }
}

/// From one handled frame to a later one the session with a node stays in service, and what
/// was received stays received.
proof fn lemma_turns_serve(calls: Seq<DataCall>, remote: u16, i: int, j: int)
    requires
        in_turn(calls, remote),
        0 <= i < j < calls.len(),
        calls[i].before.serves(remote),
    ensures
        calls[j].before.serves(remote),
        forall|q: int| #[trigger]
            calls[i].after.session(remote).dedup@.received(q)
                ==> calls[j].before.session(remote).dedup@.received(q),
    decreases j - i,
{
    if i + 1 == j {
        lemma_call_serves(calls[i], remote);
        assert(calls[j].before.receives_like(calls[j - 1].after, remote));
    } else {
        lemma_turns_serve(calls, remote, i, j - 1);
        lemma_call_serves(calls[j - 1], remote);
        assert(calls[j].before.receives_like(calls[j - 1].after, remote));
    }
}

/// What a handled frame brings about that asks for no response.
proof fn lemma_call_outcome(c: DataCall)
    requires
        c.happened(),
        c.before.serves(c.header.src_node),
        c.header.stream_seq != 0,
        !is_request(c.ext.verb),
    ensures
        c.delivered is Some <==> c.header.stream_seq == c.expected(),
        c.repeats() ==> c.is_acknowledged(),
        c.header.stream_seq >= c.expected() + 1024 ==> c.reply is None,
        c.repeats() ==> c.delivered is None,
{
    reveal(DataCall::happened);
    reveal(DataCall::is_acknowledged);
}

/// The session with a node is in service whenever a frame is handled.
proof fn lemma_serves_at(calls: Seq<DataCall>, remote: u16, i: int)
    requires
        in_turn(calls, remote),
        0 <= i < calls.len(),
        calls[0].before.serves(remote),
    ensures
        calls[i].happened(),
        calls[i].before.serves(remote),
{
    if i > 0 {
        lemma_turns_serve(calls, remote, 0, i);
    }
}

/// A frame with the number of one that had the expected number is a repetition.
proof fn lemma_repeats(calls: Seq<DataCall>, remote: u16, i: int, j: int)
    requires
        in_turn(calls, remote),
        0 <= i < j < calls.len(),
        calls[i].before.serves(remote),
        calls[i].header.src_node == remote,
        calls[i].header.stream_seq != 0,
        calls[i].header.stream_seq == calls[i].expected(),
        calls[j].header.src_node == remote,
        calls[j].header.stream_seq == calls[i].header.stream_seq,
        !is_request(calls[j].ext.verb),
    ensures
        calls[j].repeats(),
        calls[j].delivered is None,
{
    lemma_call_serves(calls[i], remote);
    lemma_turns_serve(calls, remote, i, j);
    lemma_call_outcome(calls[j]);
}

/// Over any sequence of handled frames the frames of a node that ask for no response are
/// delivered at most once each, in the order of their numbers: when a frame has the number
/// that is expected next. A frame that was received before is not delivered but
/// acknowledged, and one 1024 or more ahead is dropped without a word.
pub proof fn lemma_at_most_once_in_order(calls: Seq<DataCall>, remote: u16, i: int)
    requires
        in_turn(calls, remote),
        0 <= i < calls.len(),
        calls[0].before.serves(remote),
        calls[i].header.src_node == remote,
        calls[i].header.stream_seq != 0,
        !(calls[i].ext.verb is ReadReq || calls[i].ext.verb is AtomicCas
            || calls[i].ext.verb is AtomicFaa),
    ensures
        calls[i].delivered is Some <==> calls[i].header.stream_seq == calls[i].expected(),
        calls[i].repeats() ==> calls[i].is_acknowledged(),
        calls[i].header.stream_seq >= calls[i].expected() + 1024 ==> calls[i].reply is None,
        calls[i].delivered is Some ==> forall|j: int|
            i < j < calls.len() && (#[trigger] calls[j]).header.src_node == remote
                && calls[j].header.stream_seq == calls[i].header.stream_seq && !(
            calls[j].ext.verb is ReadReq || calls[j].ext.verb is AtomicCas
                || calls[j].ext.verb is AtomicFaa) ==> calls[j].repeats() && calls[j].delivered is None,
{
    lemma_serves_at(calls, remote, i);
    lemma_call_outcome(calls[i]);
    if calls[i].delivered is Some {
        assert forall|j: int|
            i < j < calls.len() && (#[trigger] calls[j]).header.src_node == remote
                && calls[j].header.stream_seq == calls[i].header.stream_seq && !(
            calls[j].ext.verb is ReadReq || calls[j].ext.verb is AtomicCas
                || calls[j].ext.verb is AtomicFaa) implies calls[j].repeats() && calls[j].delivered is None by {
            lemma_repeats(calls, remote, i, j);
        }
    }
}

/// What a numbered frame brings about in an active session with a connected node. The
/// number that is expected next is delivered, and acknowledged once eight frames are
/// waiting for it. A number that was received before is acknowledged at once, and
/// delivered only where the frame asks for a response. A number less than 1024 ahead is
/// acknowledged at once, with the numbers that have arrived, but not delivered. Any other is
/// dropped without a word.
pub proof fn lemma_frame_outcome(c: DataCall)
    requires
        c.happened(),
        c.before.serves(c.header.src_node),
        c.header.stream_seq != 0,
        c.before.session(c.header.src_node).frames_since_last_ack < u32::MAX,
        c.before.session(c.header.src_node).credits_to_grant < u32::MAX,
    ensures
        ({
            let s = c.before.session(c.header.src_node);
            let seq = c.header.stream_seq;
            let next = s.dedup@.next;
            let known = seq < next || s.dedup@.ahead.contains(seq as int);
            &&& seq == next ==> c.delivered is Some && (c.reply is Some <==> (
            s.frames_since_last_ack >= 7 || s.credits_to_grant >= 7))
            &&& known ==> c.is_acknowledged() && (c.delivered is Some <==> (c.ext.verb is ReadReq
                || c.ext.verb is AtomicCas || c.ext.verb is AtomicFaa))
            &&& next < seq < next + 1024 && !known ==> c.is_acknowledged() && c.delivered is None
            &&& seq >= next + 1024 ==> c.reply is None && c.delivered is None
            &&& c.delivered matches Some(f) ==> f.header == c.header && f.ext == c.ext && f.payload@
                == c.payload && f.seq == seq
        }),
{
    reveal(DataCall::happened);
    reveal(DataCall::is_acknowledged);
}

/// A frame without number, or from a node without session, is delivered as it comes and
/// changes nothing; one for a session that has ended is dropped.
pub proof fn lemma_frame_aside(c: DataCall)
    requires
        c.happened(),
    ensures
        c.header.stream_seq == 0 || !c.before.sessions.contains_key(
            c.before.current(c.header.src_node),
        ) ==> c.delivered is Some && c.reply is None && c.after == c.before,
        c.header.stream_seq != 0 && c.before.sessions.contains_key(
            c.before.current(c.header.src_node),
        ) && c.before.session(c.header.src_node).state == SessionState::Dead ==> c.delivered is None
            && c.reply is None && c.after == c.before,
{
    reveal(DataCall::happened);
}

/// An acknowledgement frame is taken in by the session with its sender and by no other, and
/// reported for that session. It tells of round trips only where it acknowledges more than
/// any before it.
pub proof fn lemma_ack_reported(
    a: TransportView,
    peer_node: u16,
    ack: AckView,
    now: u64,
    report: Option<RttReport>,
    after: TransportView,
    other: (u16, u32),
)
    requires
        ack.sack matches Some(b) ==> b.len() == 32,
        a.sessions.contains_key(a.current(peer_node)),
        ({
            let frame = parse_frame(ack_frame(peer_node, a.local, ack))->Ok_0;
            a.ack_taken(frame.0, frame.2, now, report, after)
        }),
        other != a.current(peer_node),
    ensures
        report matches Some(r) && r.remote_node == peer_node && r.epoch == a.current(peer_node).1
            && (ack.ack_seq <= a.session(peer_node).last_ack_seq ==> r.samples@.len() == 0) && (
        ack.ack_seq > a.session(peer_node).last_ack_seq ==> r.samples@ == samples_of(
            a.session(peer_node).retransmit_queue@,
            ack.ack_seq,
            now,
        )),
        a.session(peer_node).acked(after.sessions[a.current(peer_node)], ack),
        after.sessions[other] == a.sessions[other],
        after.sessions.contains_key(other) == a.sessions.contains_key(other),
        after.epochs == a.epochs,
        after.peers == a.peers,
{
    lemma_ack_frame(peer_node, a.local, ack);
}

/// The acknowledgement frame of a peer settles no frame that the peer has not received, so
/// that the frame is sent again in time. A frame that arrives after a gap counts as received
/// though it is not delivered.
pub proof fn lemma_unreceived_stays_queued(
    a: TransportView,
    peer_node: u16,
    peer: ReliableSession,
    gap: bool,
    ack: AckView,
    now: u64,
    report: Option<RttReport>,
    after: TransportView,
    i: int,
)
    requires
        peer.dedup@.next > 0,
        peer.acknowledges(gap, ack),
        a.sessions.contains_key(a.current(peer_node)),
        ({
            let frame = parse_frame(ack_frame(peer_node, a.local, ack))->Ok_0;
            a.ack_taken(frame.0, frame.2, now, report, after)
        }),
        0 <= i < a.session(peer_node).retransmit_queue@.len(),
        !peer.dedup@.received(a.session(peer_node).retransmit_queue@[i].seq as int),
    ensures
        after.session(peer_node).retransmit_queue@.contains(
            a.session(peer_node).retransmit_queue@[i],
        ),
{
    lemma_ack_frame(peer_node, a.local, ack);
    assert(after.current(peer_node) == a.current(peer_node));
    a.session(peer_node).lemma_kept_until_received(after.session(peer_node), peer, gap, ack, i);
}

/// Whether a verb asks for a response, so that a duplicate is worth answering again.
pub open spec fn is_request(verb: Verb) -> bool {
    verb is ReadReq || verb is AtomicCas || verb is AtomicFaa
}

/// Whether a taken-in frame is acknowledged: a duplicate or a frame after a gap at once,
/// frames in order from time to time, a discarded frame never.
pub open spec fn acks(action: ReceiveAction, s: ReliableSession) -> bool {
    match action {
        ReceiveAction::Duplicate | ReceiveAction::OutOfOrder => true,
        ReceiveAction::Deliver => s.wants_ack(),
        ReceiveAction::BeyondWindow => false,
    }
}

/// What a session sends again at `now`: the due frames, to its remote node.
pub open spec fn resends_of(s: ReliableSession, now: u64) -> Seq<(u16, Seq<u8>)> {
    if s.resends(now) {
        due_frames(s.retransmit_queue@, now).map_values(|f: Seq<u8>| (s.key.remote_node, f))
    } else {
        Seq::empty()
    }
}

/// What the given sessions send again at `now`, one session after the other.
pub open spec fn all_resends(
    sessions: Map<(u16, u32), ReliableSession>,
    keys: Seq<(u16, u32)>,
    now: u64,
) -> Seq<(u16, Seq<u8>)>
    decreases keys.len(),
{
    if keys.len() == 0 {
        Seq::empty()
    } else {
        all_resends(sessions, keys.drop_last(), now) + resends_of(sessions[keys.last()], now)
    }
}

/// Every frame of an active session whose deadline has passed is sent again to the remote
/// node of the session, where no due frame of the session was sent as often as it may be.
pub proof fn lemma_all_resent(
    sessions: Map<(u16, u32), ReliableSession>,
    keys: Seq<(u16, u32)>,
    now: u64,
    k: (u16, u32),
    i: int,
)
    requires
        keys.contains(k),
        sessions[k].state == SessionState::Active,
        forall|j: int|
            0 <= j < sessions[k].retransmit_queue@.len() && now >= (
            #[trigger] sessions[k].retransmit_queue@[j]).rto_deadline
                ==> sessions[k].retransmit_queue@[j].retry_count < sessions[k].max_retries,
        0 <= i < sessions[k].retransmit_queue@.len(),
        now >= sessions[k].retransmit_queue@[i].rto_deadline,
    ensures
        all_resends(sessions, keys, now).contains(
            (sessions[k].key.remote_node, sessions[k].retransmit_queue@[i].frame@),
        ),
    decreases keys.len(),
{
    let s = sessions[k];
    let want = (s.key.remote_node, s.retransmit_queue@[i].frame@);
    let l = keys.drop_last();
    let a = all_resends(sessions, l, now);
    let b = resends_of(sessions[keys.last()], now);
    if keys.last() == k {
        let at = lemma_is_due(s.retransmit_queue@, now, i);
        assert(b[at] == want);
        assert((a + b)[a.len() + at] == want);
    } else {
        let p = choose|p: int| 0 <= p < keys.len() && keys[p] == k;
        assert(l[p] == k);
        lemma_all_resent(sessions, l, now, k, i);
        let at = choose|at: int| 0 <= at < a.len() && a[at] == want;
        assert((a + b)[at] == want);
    }
}

/// What is sent again is a frame of an active session whose deadline has passed.
pub proof fn lemma_resent_was_due(
    sessions: Map<(u16, u32), ReliableSession>,
    keys: Seq<(u16, u32)>,
    now: u64,
    at: int,
) -> (r: ((u16, u32), int))
    requires
        0 <= at < all_resends(sessions, keys, now).len(),
    ensures
        keys.contains(r.0),
        sessions[r.0].state == SessionState::Active,
        0 <= r.1 < sessions[r.0].retransmit_queue@.len(),
        now >= sessions[r.0].retransmit_queue@[r.1].rto_deadline,
        all_resends(sessions, keys, now)[at] == (
            sessions[r.0].key.remote_node,
            sessions[r.0].retransmit_queue@[r.1].frame@,
        ),
    decreases keys.len(),
{
    let l = keys.drop_last();
    let a = all_resends(sessions, l, now);
    if at < a.len() {
        let r = lemma_resent_was_due(sessions, l, now, at);
        let p = choose|p: int| 0 <= p < l.len() && l[p] == r.0;
        assert(keys[p] == r.0);
        r
    } else {
        let q = sessions[keys.last()].retransmit_queue@;
        lemma_due(q, now);
        let i = lemma_due_is(q, now, at - a.len());
        assert(keys[keys.len() - 1] == keys.last());
        (keys.last(), i)
    }
}

/// What was not settled in the given sessions, one session after the other.
pub open spec fn all_unsettled(
    sessions: Map<(u16, u32), ReliableSession>,
    keys: Seq<(u16, u32)>,
) -> Seq<RetransmitEntry>
    decreases keys.len(),
{
    if keys.len() == 0 {
        Seq::empty()
    } else {
        all_unsettled(sessions, keys.drop_last()) + sessions[keys.last()].retransmit_queue@
    }
}

/// The sessions with a node.
pub open spec fn of_node(sessions: Map<(u16, u32), ReliableSession>, node: u16) -> Set<(u16, u32)> {
    Set::new(|k: (u16, u32)| sessions.contains_key(k) && k.0 == node)
}

/// Every entry that waited in a session with a node is handed back when the node goes, and
/// no entry of another session is.
pub proof fn lemma_unsettled_of_node(
    sessions: Map<(u16, u32), ReliableSession>,
    keys: Seq<(u16, u32)>,
    node: u16,
    e: RetransmitEntry,
)
    requires
        lists(keys, of_node(sessions, node)),
    ensures
        all_unsettled(sessions, keys).contains(e) <==> exists|k: (u16, u32)|
            k.0 == node && #[trigger] sessions.contains_key(k)
                && sessions[k].retransmit_queue@.contains(e),
{
    lemma_unsettled(sessions, keys, e);
    if exists|k: (u16, u32)|
        k.0 == node && #[trigger] sessions.contains_key(k)
            && sessions[k].retransmit_queue@.contains(e) {
        let k = choose|k: (u16, u32)|
            k.0 == node && #[trigger] sessions.contains_key(k)
                && sessions[k].retransmit_queue@.contains(e);
        assert(keys.to_set().contains(k));
    }
    if all_unsettled(sessions, keys).contains(e) {
        let p = choose|p: int|
            0 <= p < keys.len() && sessions[#[trigger] keys[p]].retransmit_queue@.contains(e);
        assert(keys.to_set().contains(keys[p]));
        assert(sessions.contains_key(keys[p]));
    }
}

proof fn lemma_unsettled(
    sessions: Map<(u16, u32), ReliableSession>,
    keys: Seq<(u16, u32)>,
    e: RetransmitEntry,
)
    ensures
        all_unsettled(sessions, keys).contains(e) <==> exists|p: int|
            0 <= p < keys.len() && sessions[#[trigger] keys[p]].retransmit_queue@.contains(e),
    decreases keys.len(),
{
    if keys.len() > 0 {
        let l = keys.drop_last();
        let a = all_unsettled(sessions, l);
        let b = sessions[keys.last()].retransmit_queue@;
        lemma_unsettled(sessions, l, e);
        if (a + b).contains(e) {
            let i = choose|i: int| 0 <= i < (a + b).len() && (a + b)[i] == e;
            if i < a.len() {
                assert(a[i] == e);
                let p = choose|p: int|
                    0 <= p < l.len() && sessions[#[trigger] l[p]].retransmit_queue@.contains(e);
                assert(keys[p] == l[p]);
            } else {
                assert(b[i - a.len()] == e);
                assert(keys[keys.len() - 1] == keys.last());
            }
        }
        if exists|p: int|
            0 <= p < keys.len() && sessions[#[trigger] keys[p]].retransmit_queue@.contains(e) {
            let p = choose|p: int|
                0 <= p < keys.len() && sessions[#[trigger] keys[p]].retransmit_queue@.contains(e);
            if p < l.len() {
                assert(l[p] == keys[p]);
                let i = choose|i: int| 0 <= i < a.len() && a[i] == e;
                assert((a + b)[i] == e);
            } else {
                let i = choose|i: int| 0 <= i < b.len() && b[i] == e;
                assert((a + b)[a.len() + i] == e);
            }
        }
    }
}

/// Whether `keys` names every member of `all` once.
pub open spec fn lists(keys: Seq<(u16, u32)>, all: Set<(u16, u32)>) -> bool {
    keys.no_duplicates() && keys.to_set() == all
}

/// Remote node and epoch as a number.
spec fn slot(remote: u16, epoch: u32) -> u128 {
    (remote * 0x1_0000_0000 + epoch) as u128
}

fn pack(remote: u16, epoch: u32) -> (r: u128)
    ensures
        r == slot(remote, epoch),
{
    remote as u128 * 0x1_0000_0000 + epoch as u128
}

/// The text about a session that exists already.
pub open spec fn exists_text(local: u16, remote: u16, epoch: u32) -> Seq<char> {
    "session already exists for SessionKey { local_node: "@ + dec_text(local as nat)
        + ", remote_node: "@ + dec_text(remote as nat) + ", epoch: "@ + dec_text(epoch as nat)
        + " }"@
}

fn exists_message(local: u16, remote: u16, epoch: u32) -> (r: String)
    ensures
        r@ == exists_text(local, remote, epoch),
{
    let mut out = String::from_str("session already exists for SessionKey { local_node: ");
    push_dec(&mut out, local as u64);
    out.append(", remote_node: ");
    push_dec(&mut out, remote as u64);
    out.append(", epoch: ");
    push_dec(&mut out, epoch as u64);
    out.append(" }");
    out
}

/// The reliable sessions of a node.
pub struct TransportManager {
    local_node_id: u16,
    sessions: Table<ReliableSession>,
    peer_epochs: Table<u32>,
    peers: Table<()>,
    config: TransportConfig,
    flow_config: FlowConfig,
}

impl View for TransportManager {
    type V = TransportView;

    closed spec fn view(&self) -> TransportView {
        TransportView {
            local: self.local_node_id,
            sessions: Map::new(
                |k: (u16, u32)| self.sessions@.contains_key(slot(k.0, k.1)),
                |k: (u16, u32)| self.sessions@[slot(k.0, k.1)],
            ),
            epochs: Map::new(
                |k: u16| self.peer_epochs@.contains_key(k as u128),
                |k: u16| self.peer_epochs@[k as u128],
            ),
            peers: Set::new(|k: u16| self.peers@.contains_key(k as u128)),
            config: self.config,
        }
    }
}

impl TransportManager {
    /// Whether a session stands under its own key and is well-formed.
    spec fn session_ok(&self, k: u128) -> bool {
        let s = self.sessions@[k];
        &&& k == slot(s.key.remote_node, s.key.epoch)
        &&& s.key.local_node == self.local_node_id
        &&& s.wf()
        &&& s.rto_base_ms == self.config.rto_ms
    }

    pub closed spec fn wf(&self) -> bool {
        &&& self.sessions.wf()
        &&& self.peer_epochs.wf()
        &&& self.peers.wf()
        &&& forall|k: u128| #[trigger] self.sessions@.contains_key(k) ==> self.session_ok(k)
    }

    /// Every session stands under its own key and is well-formed.
    pub proof fn lemma_sessions(&self, key: (u16, u32))
        requires
            self.wf(),
            self@.sessions.contains_key(key),
        ensures
            self@.sessions[key].wf(),
            self@.sessions[key].key == (SessionKey {
                local_node: self@.local,
                remote_node: key.0,
                epoch: key.1,
            }),
            self@.sessions[key].rto_base_ms == self@.config.rto_ms,
    {
        assert(self.session_ok(slot(key.0, key.1)));
    }

    /// An active session with a connected node is in service.
    pub proof fn lemma_serves(&self, remote: u16)
        requires
            self.wf(),
            self@.sessions.contains_key(self@.current(remote)),
            self@.session(remote).state == SessionState::Active,
            self@.peers.contains(remote),
        ensures
            self@.serves(remote),
    {
        self.lemma_sessions(self@.current(remote));
        self@.session(remote).dedup.lemma_wf();
    }

    pub fn new(local_node_id: u16, config: TransportConfig, flow_config: FlowConfig) -> (r: Self)
        ensures
            r.wf(),
            r@ == (TransportView {
                local: local_node_id,
                sessions: Map::empty(),
                epochs: Map::empty(),
                peers: Set::empty(),
                config,
            }),
    {
        let r = TransportManager {
            local_node_id,
            sessions: Table::new(),
            peer_epochs: Table::new(),
            peers: Table::new(),
            config,
            flow_config,
        };
        assert(r@ =~= TransportView {
            local: local_node_id,
            sessions: Map::empty(),
            epochs: Map::empty(),
            peers: Set::empty(),
            config,
        });
        r
    }

    /// The session with a node under an epoch.
    pub fn session(&self, remote_node: u16, epoch: u32) -> (r: Option<&ReliableSession>)
        requires
            self.wf(),
        ensures
            match r {
                Some(s) => self@.sessions.contains_key((remote_node, epoch)) && *s
                    == self@.sessions[(remote_node, epoch)],
                None => !self@.sessions.contains_key((remote_node, epoch)),
            },
    {
        self.sessions.get(pack(remote_node, epoch))
    }

    /// Creates a session with a node and makes its epoch the current one.
    pub fn create_session(&mut self, remote_node: u16, epoch: u32, initial_credits: u32) -> (r:
        Result<(), UbError>)
        requires
            old(self).wf(),
        ensures
            final(self).wf(),
            match r {
                Ok(_) => {
                    let s = final(self)@.sessions[(remote_node, epoch)];
                    &&& !old(self)@.sessions.contains_key((remote_node, epoch))
                    &&& s.is_new(
                        SessionKey { local_node: old(self)@.local, remote_node, epoch },
                        old(self)@.config.rto_ms,
                        old(self)@.config.max_retries,
                        initial_credits,
                    )
                    &&& final(self)@ == (TransportView {
                        epochs: old(self)@.epochs.insert(remote_node, epoch),
                        ..old(self)@.with((remote_node, epoch), s)
                    })
                },
                Err(e) => old(self)@.sessions.contains_key((remote_node, epoch)) && e.is_internal(
                    exists_text(old(self)@.local, remote_node, epoch),
                ) && final(self)@ == old(self)@,
            },
    {
        let k: u128 = pack(remote_node, epoch);
        if self.sessions.contains(k) {
            return Err(UbError::Internal(exists_message(self.local_node_id, remote_node, epoch)));
        }
        let session = ReliableSession::new(
            self.local_node_id,
            remote_node,
            epoch,
            self.config.rto_ms,
            self.config.max_retries,
            initial_credits,
        );
        self.sessions.insert(k, session);
        self.peer_epochs.insert(remote_node as u128, epoch);
        proof {
            let s = self@.sessions[(remote_node, epoch)];
            assert(self@ =~= TransportView {
                epochs: old(self)@.epochs.insert(remote_node, epoch),
                ..old(self)@.with((remote_node, epoch), s)
            });
            assert forall|j: u128| #[trigger] self.sessions@.contains_key(j) implies self.session_ok(
                j,
            ) by {
                if j != k {
                    assert(old(self).session_ok(j));
                }
            }
        }
        Ok(())
    }

    /// Ends and drops a session, as when the epoch of a node changes. Returns what was not
    /// settled.
    pub fn invalidate_session(&mut self, remote_node: u16, old_epoch: u32) -> (r: Vec<
        RetransmitEntry,
    >)
        requires
            old(self).wf(),
        ensures
            final(self).wf(),
            final(self)@ == (TransportView {
                sessions: old(self)@.sessions.remove((remote_node, old_epoch)),
                ..old(self)@
            }),
            r@ == (if old(self)@.sessions.contains_key((remote_node, old_epoch)) {
                old(self)@.sessions[(remote_node, old_epoch)].retransmit_queue@
            } else {
                Seq::empty()
            }),
    {
        let k: u128 = pack(remote_node, old_epoch);
        let removed = self.sessions.remove(k);
        proof {
            assert(self@ =~= TransportView {
                sessions: old(self)@.sessions.remove((remote_node, old_epoch)),
                ..old(self)@
            });
            assert forall|j: u128| #[trigger] self.sessions@.contains_key(j) implies self.session_ok(
                j,
            ) by {
                assert(old(self).session_ok(j));
            }
            if old(self).sessions@.contains_key(k) {
                assert(old(self).session_ok(k));
            }
        }
        match removed {
            Some(s) => {
                let mut session = s;
                session.kill()
            },
            None => {
                let none: Vec<RetransmitEntry> = Vec::new();
                assert(none@ =~= Seq::empty());
                none
            },
        }
    }

    /// Takes note that frames can be sent to a node.
    pub fn register_peer_sender(&mut self, node_id: u16)
        requires
            old(self).wf(),
        ensures
            final(self).wf(),
            final(self)@ == (TransportView {
                peers: old(self)@.peers.insert(node_id),
                ..old(self)@
            }),
    {
        self.peers.insert(node_id as u128, ());
        proof {
            assert(self@ =~= TransportView {
                peers: old(self)@.peers.insert(node_id),
                ..old(self)@
            });
            assert forall|j: u128| #[trigger] self.sessions@.contains_key(j) implies self.session_ok(
                j,
            ) by {
                assert(old(self).session_ok(j));
            }
        }
    }

    /// Takes note that frames cannot be sent to a node any more.
    pub fn remove_peer_sender(&mut self, node_id: u16)
        requires
            old(self).wf(),
        ensures
            final(self).wf(),
            final(self)@ == (TransportView {
                peers: old(self)@.peers.remove(node_id),
                ..old(self)@
            }),
    {
        self.peers.remove(node_id as u128);
        proof {
            assert(self@ =~= TransportView {
                peers: old(self)@.peers.remove(node_id),
                ..old(self)@
            });
            assert forall|j: u128| #[trigger] self.sessions@.contains_key(j) implies self.session_ok(
                j,
            ) by {
                assert(old(self).session_ok(j));
            }
        }
    }

    /// A change of one session leaves the others, and the rest, as they were.
    proof fn lemma_with(before: Self, after: Self, key: (u16, u32))
        requires
            before.wf(),
            before@.sessions.contains_key(key),
            after.sessions.wf(),
            after.sessions@ == before.sessions@.insert(
                slot(key.0, key.1),
                after.sessions@[slot(key.0, key.1)],
            ),
            after == (TransportManager { sessions: after.sessions, ..before }),
            after.sessions@[slot(key.0, key.1)].wf(),
            after.sessions@[slot(key.0, key.1)].key == before@.sessions[key].key,
            after.sessions@[slot(key.0, key.1)].rto_base_ms == before@.sessions[key].rto_base_ms,
        ensures
            after.wf(),
            after@ == before@.with(key, after.sessions@[slot(key.0, key.1)]),
            after@.sessions[key] == after.sessions@[slot(key.0, key.1)],
    {
        let k = slot(key.0, key.1);
        assert(before.session_ok(k));
        assert(after@ =~= before@.with(key, after.sessions@[k]));
        assert forall|j: u128| #[trigger] after.sessions@.contains_key(j) implies after.session_ok(
            j,
        ) by {
            if j != k {
                assert(before.session_ok(j));
            }
        }
    }

    fn linked_epoch(&self, remote_node: u16) -> (r: Option<u32>)
        requires
            self.wf(),
        ensures
            match r {
                Some(epoch) => self@.linked(remote_node) && self@.current(remote_node) == (
                    remote_node,
                    epoch,
                ) && self.sessions@.contains_key(slot(remote_node, epoch)),
                None => !self@.linked(remote_node),
            },
    {
        match self.peer_epochs.get(remote_node as u128) {
            Some(epoch) => if self.sessions.contains(pack(remote_node, *epoch)) {
                Some(*epoch)
            } else {
                None
            },
            None => None,
        }
    }

    fn current_epoch(&self, remote_node: u16) -> (r: u32)
        requires
            self.wf(),
        ensures
            self@.current(remote_node) == (remote_node, r),
    {
        match self.peer_epochs.get(remote_node as u128) {
            Some(epoch) => *epoch,
            None => 0,
        }
    }

    /// Sends a frame: gives it the next sequence number, asks for an acknowledgement and
    /// keeps a copy for retransmission. The frame is to go out where this succeeds.
    pub fn send(
        &mut self,
        remote_node: u16,
        frame_data: &mut Vec<u8>,
        is_fire_and_forget: bool,
        opaque: u64,
        now: u64,
    ) -> (r: Result<u64, UbError>)
        requires
            old(self).wf(),
            old(self)@.can_send(remote_node, now),
        ensures
            final(self).wf(),
            ({
                let key = old(self)@.current(remote_node);
                let s = old(self)@.session(remote_node);
                let t = final(self)@.sessions[key];
                if !old(self)@.linked(remote_node) || s.state != SessionState::Active {
                    &&& r == Err::<u64, UbError>(UbError::LinkDown)
                    &&& final(self)@ == old(self)@
                    &&& final(frame_data)@ == old(frame_data)@
                } else if s.available_credits == 0 {
                    &&& r == Err::<u64, UbError>(UbError::NoResources)
                    &&& final(self)@ == old(self)@
                    &&& final(frame_data)@ == old(frame_data)@
                } else {
                    &&& r == (if old(self)@.peers.contains(remote_node) {
                        Ok::<u64, UbError>(s.next_seq)
                    } else {
                        Err::<u64, UbError>(UbError::LinkDown)
                    })
                    &&& final(frame_data)@ == stamped(old(frame_data)@, s.next_seq)
                    &&& final(self)@ == old(self)@.with(key, t)
                    &&& (ReliableSession {
                        available_credits: (s.available_credits - 1) as u32,
                        ..s
                    }).queued(t, final(frame_data)@, is_fire_and_forget, opaque, now)
                }
            }),
    {
        let epoch: u32 = match self.linked_epoch(remote_node) {
            Some(e) => e,
            None => return Err(UbError::LinkDown),
        };
        let connected = self.peers.contains(remote_node as u128);
        let k: u128 = pack(remote_node, epoch);
        proof {
            self.lemma_sessions((remote_node, epoch));
        }
        let mut outcome: Result<u64, UbError> = Err(UbError::LinkDown);
        match self.sessions.get_mut(k) {
            Some(s) => {
                if s.state != SessionState::Active {
                    outcome = Err(UbError::LinkDown);
                } else {
                    match s.consume_credit() {
                        Ok(_) => {
                            let seq: u64 = s.assign_seq(
                                frame_data,
                                is_fire_and_forget,
                                opaque,
                                now,
                            );
                            if connected {
                                outcome = Ok(seq);
                            }
                        },
                        Err(e) => {
                            outcome = Err(e);
                        },
                    }
                }
            },
            None => {},
        }
        proof {
            Self::lemma_with(*old(self), *self, (remote_node, epoch));
            assert(self@.sessions[(remote_node, epoch)] == old(self)@.sessions[(
                remote_node,
                epoch,
            )] ==> self@ =~= old(self)@);
        }
        outcome
    }

    /// Whether the bytes of a frame can be handled without a number running over.
    pub fn is_ready(&self, raw: &[u8]) -> (r: bool)
        requires
            self.wf(),
        ensures
            r == self@.ready_for(raw@),
    {
        match decode_frame(raw) {
            Ok((header, ext, _)) => {
                let epoch: u32 = self.current_epoch(header.src_node);
                let s = match self.session(header.src_node, epoch) {
                    Some(s) => s,
                    None => return true,
                };
                header.frame_type != FrameType::Data || ext.is_none() || header.stream_seq == 0
                    || s.state != SessionState::Active || s.has_room(header.stream_seq)
            },
            Err(_) => true,
        }
    }

    /// Handles the bytes of an arrived frame. Bytes that are no frame are ignored.
    pub fn handle_incoming(&mut self, raw: &[u8], now: u64) -> (r: Arrival)
        requires
            old(self).wf(),
            old(self)@.ready_for(raw@),
        ensures
            final(self).wf(),
            match parse_frame(raw@) {
                Ok((h, ext, p)) => match h.frame_type {
                    FrameType::Data => ext matches Some(x) && old(self)@.data_taken(
                        h,
                        x,
                        p,
                        r.delivered,
                        r.reply,
                        final(self)@,
                    ) && r.report is None,
                    FrameType::Ack => old(self)@.ack_taken(h, p, now, r.report, final(self)@)
                        && r.delivered is None && r.reply is None,
                    FrameType::Credit => final(self)@ == old(self)@.after_credit(h, p)
                        && r.delivered is None && r.reply is None && r.report is None,
                },
                Err(_) => final(self)@ == old(self)@ && r.delivered is None && r.reply is None
                    && r.report is None,
            },
    {
        match decode_frame(raw) {
            Ok((header, ext, payload)) => match header.frame_type {
                FrameType::Data => match ext {
                    Some(x) => {
                        let (delivered, reply) = self.handle_data_frame(
                            header,
                            x,
                            slice_to_vec(payload),
                        );
                        Arrival { delivered, reply, report: None }
                    },
                    None => Arrival { delivered: None, reply: None, report: None },
                },
                FrameType::Ack => {
                    let report = self.handle_ack_frame(&header, payload, now);
                    Arrival { delivered: None, reply: None, report }
                },
                FrameType::Credit => {
                    self.handle_credit_frame(&header, payload);
                    Arrival { delivered: None, reply: None, report: None }
                },
            },
            Err(_) => Arrival { delivered: None, reply: None, report: None },
        }
    }

    /// Handles a data frame: says whether it is to be processed, and with what frame it is
    /// acknowledged. Frames without sequence number, and from nodes without session, are
    /// processed as they come.
    pub fn handle_data_frame(&mut self, header: FrameHeader, ext: DataExtHeader, payload: Vec<u8>) -> (r:
        (Option<InboundFrame>, Option<OutFrame>))
        requires
            old(self).wf(),
            old(self)@.can_take_data(header.src_node, header.stream_seq),
        ensures
            final(self).wf(),
            old(self)@.data_taken(header, ext, payload@, r.0, r.1, final(self)@),
    {
        let remote_node: u16 = header.src_node;
        let seq: u64 = header.stream_seq;
        if seq == 0 {
            return (Some(InboundFrame { header, ext, payload, seq }), None);
        }
        let epoch: u32 = self.current_epoch(remote_node);
        let local_node: u16 = self.local_node_id;
        let connected = self.peers.contains(remote_node as u128);
        let k: u128 = pack(remote_node, epoch);
        let ghost key = (remote_node, epoch);
        if !self.sessions.contains(k) {
            return (Some(InboundFrame { header, ext, payload, seq }), None);
        }
        proof {
            self.lemma_sessions(key);
        }
        let ghost s0 = self@.sessions[key];
        let mut delivered: Option<InboundFrame> = None;
        let mut reply: Option<OutFrame> = None;
        match self.sessions.get_mut(k) {
            Some(s) => {
                if s.state == SessionState::Active {
                    let action = s.receive_frame(seq);
                    let ghost mid = *s;
                    let wanted = match action {
                        ReceiveAction::Deliver => true,
                        ReceiveAction::Duplicate => match ext.verb {
                            Verb::ReadReq | Verb::AtomicCas | Verb::AtomicFaa => true,
                            _ => false,
                        },
                        _ => false,
                    };
                    if wanted {
                        delivered = Some(InboundFrame { header, ext, payload, seq });
                    }
                    let gap = action == ReceiveAction::OutOfOrder;
                    let should_ack = match action {
                        ReceiveAction::Duplicate => true,
                        ReceiveAction::OutOfOrder => true,
                        ReceiveAction::Deliver => s.should_send_ack(),
                        ReceiveAction::BeyondWindow => false,
                    };
                    if should_ack {
                        proof {
                            if gap {
                                let first = s0.dedup@.next;
                                s0.dedup.lemma_wf();
                                assert(first < mid.dedup@.next ==> first == seq
                                    || s0.dedup@.ahead.contains(first));
                                assert(mid.dedup@.next == s0.dedup@.next);
                            }
                        }
                        let ack = s.build_ack_payload(gap);
                        assert(mid.acknowledges(gap, ack@));
                        if connected {
                            reply = Some(
                                OutFrame {
                                    dst: remote_node,
                                    frame: build_ack_frame(local_node, remote_node, &ack),
                                },
                            );
                        }
                    }
                    assert(s0.taken_in(mid, seq));
                }
            },
            None => {},
        }
        proof {
            Self::lemma_with(*old(self), *self, key);
            assert(self@.sessions[key] == s0 ==> self@ =~= old(self)@);
        }
        (delivered, reply)
    }

    /// Handles an acknowledgement frame. Returns the round-trip times that it tells of.
    pub fn handle_ack_frame(&mut self, header: &FrameHeader, payload: &[u8], now: u64) -> (r: Option<
        RttReport,
    >)
        requires
            old(self).wf(),
        ensures
            final(self).wf(),
            old(self)@.ack_taken(*header, payload@, now, r, final(self)@),
    {
        let remote_node: u16 = header.src_node;
        let has_sack = header.flags.contains(FrameFlags::has_sack());
        let ack = match decode_ack_payload(payload, has_sack) {
            Ok(a) => a,
            Err(_) => return None,
        };
        let epoch: u32 = self.current_epoch(remote_node);
        let k: u128 = pack(remote_node, epoch);
        if !self.sessions.contains(k) {
            return None;
        }
        proof {
            self.lemma_sessions((remote_node, epoch));
        }
        let mut report: Option<RttReport> = None;
        match self.sessions.get_mut(k) {
            Some(s) => {
                let samples = s.rtt_samples(&ack, now);
                let _ = s.process_ack(&ack);
                report = Some(RttReport { remote_node, epoch, samples });
            },
            None => {},
        }
        proof {
            Self::lemma_with(*old(self), *self, (remote_node, epoch));
        }
        report
    }

    /// Handles a credit frame.
    pub fn handle_credit_frame(&mut self, header: &FrameHeader, payload: &[u8])
        requires
            old(self).wf(),
        ensures
            final(self).wf(),
            final(self)@ == old(self)@.after_credit(*header, payload@),
    {
        let remote_node: u16 = header.src_node;
        let credit = match decode_credit_payload(payload) {
            Ok(c) => c,
            Err(_) => return,
        };
        let epoch: u32 = self.current_epoch(remote_node);
        let k: u128 = pack(remote_node, epoch);
        if !self.sessions.contains(k) {
            return;
        }
        proof {
            self.lemma_sessions((remote_node, epoch));
        }
        match self.sessions.get_mut(k) {
            Some(s) => {
                s.add_credits(credit.credits);
            },
            None => {},
        }
        proof {
            Self::lemma_with(*old(self), *self, (remote_node, epoch));
        }
    }

    /// Takes over a new estimate of the retransmission timeout for a session.
    pub fn set_rto(&mut self, remote_node: u16, epoch: u32, estimate_ms: u64)
        requires
            old(self).wf(),
        ensures
            final(self).wf(),
            final(self)@ == (if old(self)@.sessions.contains_key((remote_node, epoch)) {
                old(self)@.with(
                    (remote_node, epoch),
                    ReliableSession {
                        rto: clamp_rto(estimate_ms),
                        ..old(self)@.sessions[(remote_node, epoch)]
                    },
                )
            } else {
                old(self)@
            }),
    {
        let k: u128 = pack(remote_node, epoch);
        if !self.sessions.contains(k) {
            return;
        }
        proof {
            self.lemma_sessions((remote_node, epoch));
        }
        match self.sessions.get_mut(k) {
            Some(s) => {
                s.set_rto(estimate_ms);
            },
            None => {},
        }
        proof {
            Self::lemma_with(*old(self), *self, (remote_node, epoch));
        }
    }

    /// Records that a frame from a node has been executed.
    pub fn mark_executed(&mut self, remote_node: u16, seq: u64)
        requires
            old(self).wf(),
        ensures
            final(self).wf(),
            if old(self)@.linked(remote_node) {
                let key = old(self)@.current(remote_node);
                let t = final(self)@.sessions[key];
                &&& final(self)@ == old(self)@.with(key, t)
                &&& old(self)@.sessions[key].recorded(t, seq)
                &&& t.spec_executed(seq)
            } else {
                final(self)@ == old(self)@
            },
    {
        let epoch: u32 = match self.linked_epoch(remote_node) {
            Some(e) => e,
            None => return,
        };
        proof {
            self.lemma_sessions((remote_node, epoch));
        }
        match self.sessions.get_mut(pack(remote_node, epoch)) {
            Some(s) => {
                s.mark_executed(seq);
            },
            None => {},
        }
        proof {
            Self::lemma_with(*old(self), *self, (remote_node, epoch));
        }
    }

    /// Whether a frame from a node has been executed.
    pub fn is_executed(&self, remote_node: u16, seq: u64) -> (r: bool)
        requires
            self.wf(),
        ensures
            r == (self@.linked(remote_node) && self@.session(remote_node).spec_executed(seq)),
    {
        match self.linked_epoch(remote_node) {
            Some(epoch) => match self.session(remote_node, epoch) {
                Some(s) => s.is_executed(seq),
                None => false,
            },
            None => false,
        }
    }

    /// Drops the request to a node whose response has arrived.
    pub fn complete_request(&mut self, remote_node: u16, opaque: u64)
        requires
            old(self).wf(),
        ensures
            final(self).wf(),
            if old(self)@.linked(remote_node) {
                let key = old(self)@.current(remote_node);
                let t = final(self)@.sessions[key];
                &&& final(self)@ == old(self)@.with(key, t)
                &&& old(self)@.sessions[key].answered(t, opaque)
            } else {
                final(self)@ == old(self)@
            },
    {
        let epoch: u32 = match self.linked_epoch(remote_node) {
            Some(e) => e,
            None => return,
        };
        proof {
            self.lemma_sessions((remote_node, epoch));
        }
        match self.sessions.get_mut(pack(remote_node, epoch)) {
            Some(s) => {
                s.complete_request(opaque);
            },
            None => {},
        }
        proof {
            Self::lemma_with(*old(self), *self, (remote_node, epoch));
        }
    }

    /// Adds credits to grant to a node. They travel with the next acknowledgement.
    pub fn grant_credits(&mut self, remote_node: u16, count: u32)
        requires
            old(self).wf(),
            old(self)@.linked(remote_node) ==> old(self)@.session(remote_node).credits_to_grant
                + count <= u32::MAX,
        ensures
            final(self).wf(),
            final(self)@ == (if old(self)@.linked(remote_node) {
                let s = old(self)@.session(remote_node);
                old(self)@.with(
                    old(self)@.current(remote_node),
                    ReliableSession {
                        credits_to_grant: (s.credits_to_grant + count) as u32,
                        ..s
                    },
                )
            } else {
                old(self)@
            }),
    {
        let epoch: u32 = match self.linked_epoch(remote_node) {
            Some(e) => e,
            None => return,
        };
        proof {
            self.lemma_sessions((remote_node, epoch));
        }
        match self.sessions.get_mut(pack(remote_node, epoch)) {
            Some(s) => {
                s.credits_to_grant = s.credits_to_grant + count;
            },
            None => {},
        }
        proof {
            Self::lemma_with(*old(self), *self, (remote_node, epoch));
        }
    }

    /// Looks up the response to a request from a node.
    pub fn read_cache_get(&mut self, remote_node: u16, key: CacheKey, now: u64) -> (r: Option<Vec<u8>>)
        requires
            old(self).wf(),
            old(self)@.linked(remote_node) ==> old(self)@.session(remote_node).read_cache@.next_order
                < u64::MAX,
        ensures
            final(self).wf(),
            if old(self)@.linked(remote_node) {
                let k = old(self)@.current(remote_node);
                let s = old(self)@.sessions[k];
                let t = final(self)@.sessions[k];
                &&& final(self)@ == old(self)@.with(k, t)
                &&& t == (ReliableSession { read_cache: t.read_cache, ..s })
                &&& t.read_cache@ == s.read_cache@.after_get(cache_key(key), now)
                &&& match r {
                    Some(v) => s.read_cache@.hit(cache_key(key), now) && v@
                        == s.read_cache@.entries[cache_key(key)].response,
                    None => !s.read_cache@.hit(cache_key(key), now),
                }
            } else {
                r is None && final(self)@ == old(self)@
            },
    {
        let epoch: u32 = match self.linked_epoch(remote_node) {
            Some(e) => e,
            None => return None,
        };
        proof {
            self.lemma_sessions((remote_node, epoch));
        }
        let mut found: Option<Vec<u8>> = None;
        match self.sessions.get_mut(pack(remote_node, epoch)) {
            Some(s) => {
                found = s.read_cache.get(key, now);
            },
            None => {},
        }
        proof {
            Self::lemma_with(*old(self), *self, (remote_node, epoch));
        }
        found
    }

    /// Stores the response to a request from a node.
    pub fn read_cache_insert(
        &mut self,
        remote_node: u16,
        key: CacheKey,
        response: Vec<u8>,
        now: u64,
    )
        requires
            old(self).wf(),
            old(self)@.linked(remote_node) ==> old(self)@.session(remote_node).read_cache@.next_order
                < u64::MAX,
        ensures
            final(self).wf(),
            if old(self)@.linked(remote_node) {
                let k = old(self)@.current(remote_node);
                let s = old(self)@.sessions[k];
                let t = final(self)@.sessions[k];
                &&& final(self)@ == old(self)@.with(k, t)
                &&& t == (ReliableSession { read_cache: t.read_cache, ..s })
                &&& t.read_cache@ == s.read_cache@.after_insert(cache_key(key), response@, now)
            } else {
                final(self)@ == old(self)@
            },
    {
        let epoch: u32 = match self.linked_epoch(remote_node) {
            Some(e) => e,
            None => return,
        };
        proof {
            self.lemma_sessions((remote_node, epoch));
        }
        match self.sessions.get_mut(pack(remote_node, epoch)) {
            Some(s) => {
                s.read_cache.insert(key, response, now);
            },
            None => {},
        }
        proof {
            Self::lemma_with(*old(self), *self, (remote_node, epoch));
        }
    }

    /// Takes note that a node is down: ends and drops its sessions. Returns what was not
    /// settled in them, one session after the other.
    pub fn notify_peer_down(&mut self, node_id: u16) -> (r: Vec<RetransmitEntry>)
        requires
            old(self).wf(),
        ensures
            final(self).wf(),
            final(self)@ == (TransportView {
                sessions: old(self)@.sessions.remove_keys(of_node(old(self)@.sessions, node_id)),
                epochs: old(self)@.epochs.remove(node_id),
                peers: old(self)@.peers.remove(node_id),
                ..old(self)@
            }),
            exists|keys: Seq<(u16, u32)>| #[trigger]
                lists(keys, of_node(old(self)@.sessions, node_id)) && r@ == all_unsettled(
                    old(self)@.sessions,
                    keys,
                ),
    {
        let ghost all = self@.sessions;
        let ghost first = *self;
        self.peers.remove(node_id as u128);
        let slots = self.sessions.keys();
        let mut out: Vec<RetransmitEntry> = Vec::new();
        let mut i: usize = 0;
        let ghost mut done: Seq<(u16, u32)> = Seq::empty();
        proof {
            self.sessions.lemma_positions();
            assert(self@ =~= TransportView {
                sessions: all,
                peers: first@.peers.remove(node_id),
                ..first@
            });
            assert forall|j: u128| #[trigger] self.sessions@.contains_key(j) implies self.session_ok(
                j,
            ) by {
                assert(first.session_ok(j));
            }
        }
        while i < slots.len()
            invariant
                i <= slots@.len(),
                first.wf(),
                all == first@.sessions,
                slots@ == first.sessions.key_seq(),
                self.wf(),
                *self == (TransportManager {
                    sessions: self.sessions,
                    peers: self.peers,
                    ..first
                }),
                self@.peers == first@.peers.remove(node_id),
                forall|k: (u16, u32)| #[trigger]
                    self@.sessions.contains_key(k) <==> all.contains_key(k) && !done.contains(k),
                forall|k: (u16, u32)| #[trigger]
                    self@.sessions.contains_key(k) ==> self@.sessions[k] == all[k],
                done.no_duplicates(),
                forall|k: (u16, u32)| #[trigger]
                    done.contains(k) ==> all.contains_key(k) && k.0 == node_id,
                forall|j: int|
                    0 <= j < i ==> ({
                        let s = first.sessions@[#[trigger] slots@[j]];
                        s.key.remote_node == node_id ==> done.contains(
                            (s.key.remote_node, s.key.epoch),
                        )
                    }),
                out@ == all_unsettled(all, done),
            decreases slots@.len() - i,
        {
            let k: u128 = slots[i];
            let ghost key0 = first.sessions@[k].key;
            let ghost key = (key0.remote_node, key0.epoch);
            let ghost before = *self;
            proof {
                first.sessions.lemma_positions();
                assert(first.sessions@.contains_key(first.sessions.key_seq()[i as int]));
                assert(first.session_ok(k));
                assert(all.contains_key(key) && all[key] == first.sessions@[k]);
                assert(self.sessions@.contains_key(k) == self@.sessions.contains_key(key));
            }
            let hit = match self.sessions.get(k) {
                Some(s) => s.key.remote_node == node_id,
                None => false,
            };
            if hit {
                proof {
                    assert(self@.sessions.contains_key(key));
                    assert(self.session_ok(k));
                }
                match self.sessions.remove(k) {
                    Some(s) => {
                        let mut session = s;
                        let mut rest = session.kill();
                        out.append(&mut rest);
                    },
                    None => {},
                }
                proof {
                    let next = done.push(key);
                    assert(next.drop_last() =~= done);
                    assert(next.last() == key);
                    assert forall|c: (u16, u32)| next.contains(c) <==> done.contains(c) || c
                        == key by {
                        if done.contains(c) {
                            let p = choose|p: int| 0 <= p < done.len() && done[p] == c;
                            assert(next[p] == c);
                        }
                        assert(next[done.len() as int] == key);
                    }
                    assert(self@.sessions =~= before@.sessions.remove(key));
                    assert(self@.peers =~= before@.peers);
                    done = next;
                    assert forall|j: u128| #[trigger]
                        self.sessions@.contains_key(j) implies self.session_ok(j) by {
                        assert(before.session_ok(j));
                    }
                }
            }
            i = i + 1;
        }
        let ghost mid = *self;
        self.peer_epochs.remove(node_id as u128);
        proof {
            assert(self@.sessions =~= mid@.sessions);
            assert(self@.peers =~= mid@.peers);
            first.sessions.lemma_positions();
            let want = of_node(all, node_id);
            assert forall|k: (u16, u32)| done.to_set().contains(k) <==> want.contains(k) by {
                if want.contains(k) {
                    let p = slot(k.0, k.1);
                    assert(first.sessions@.contains_key(p));
                    let j = choose|j: int|
                        0 <= j < first.sessions.key_seq().len() && first.sessions.key_seq()[j] == p
                            && first.sessions.val_seq()[j] == first.sessions@[p];
                    assert(first.session_ok(slots@[j]));
                }
            }
            assert(done.to_set() =~= want);
            assert(lists(done, want));
            assert forall|k: (u16, u32)| done.contains(k) <==> want.contains(k) by {
                assert(done.to_set().contains(k) == want.contains(k));
            }
            assert(self@.sessions =~= all.remove_keys(want));
            assert(self@ =~= TransportView {
                sessions: all.remove_keys(want),
                epochs: first@.epochs.remove(node_id),
                peers: first@.peers.remove(node_id),
                ..first@
            });
            assert forall|j: u128| #[trigger] self.sessions@.contains_key(j) implies self.session_ok(
                j,
            ) by {}
        }
        out
    }

    /// The time between two looks for timeouts, in milliseconds: half the base timeout, but
    /// no less than 50.
    pub fn tick_interval_ms(&self) -> (r: u64)
        ensures
            r == (if self@.config.rto_ms / 2 < 50 {
                50
            } else {
                self@.config.rto_ms / 2
            }),
    {
        let half: u64 = self.config.rto_ms / 2;
        if half < 50 {
            50
        } else {
            half
        }
    }

    /// Lets the timeouts at `now` take effect on every session. Returns the frames to send
    /// again, session by session.
    pub fn tick_rto(&mut self, now: u64) -> (r: Vec<OutFrame>)
        requires
            old(self).wf(),
            now + old(self)@.config.rto_ms * 1024 <= u64::MAX,
        ensures
            final(self).wf(),
            final(self)@ == (TransportView { sessions: final(self)@.sessions, ..old(self)@ }),
            final(self)@.sessions.dom() == old(self)@.sessions.dom(),
            forall|k: (u16, u32)| #[trigger]
                old(self)@.sessions.contains_key(k) ==> old(self)@.sessions[k].timed(
                    final(self)@.sessions[k],
                    now,
                ),
            exists|keys: Seq<(u16, u32)>| #[trigger]
                lists(keys, old(self)@.sessions.dom()) && r@.map_values(|f: OutFrame| f@)
                    == all_resends(old(self)@.sessions, keys, now),
            forall|k: (u16, u32), i: int|
                ({
                    let s = old(self)@.sessions[k];
                    &&& old(self)@.sessions.contains_key(k)
                    &&& s.state == SessionState::Active
                    &&& forall|j: int|
                        0 <= j < s.retransmit_queue@.len() && now >= (
                        #[trigger] s.retransmit_queue@[j]).rto_deadline
                            ==> s.retransmit_queue@[j].retry_count < s.max_retries
                    &&& 0 <= i < s.retransmit_queue@.len()
                    &&& now >= (
                    #[trigger] old(self)@.sessions[k].retransmit_queue@[i]).rto_deadline
                }) ==> exists|f: int|
                    0 <= f < r@.len() && (#[trigger] r@[f]).dst
                        == old(self)@.sessions[k].key.remote_node && r@[f].frame@
                        == old(self)@.sessions[k].retransmit_queue@[i].frame@,
    {
        let ghost all = self@.sessions;
        let ghost first = *self;
        let slots = self.sessions.keys();
        let mut out: Vec<OutFrame> = Vec::new();
        let mut i: usize = 0;
        let ghost mut done: Seq<(u16, u32)> = Seq::empty();
        proof {
            assert(out@.map_values(|f: OutFrame| f@) =~= all_resends(all, done, now));
        }
        while i < slots.len()
            invariant
                i <= slots@.len(),
                first.wf(),
                all == first@.sessions,
                slots@ == first.sessions.key_seq(),
                now + first@.config.rto_ms * 1024 <= u64::MAX,
                self.wf(),
                *self == (TransportManager { sessions: self.sessions, ..first }),
                self@.sessions.dom() == all.dom(),
                done.len() == i,
                forall|j: int|
                    0 <= j < i ==> all.contains_key(#[trigger] done[j]) && slot(
                        done[j].0,
                        done[j].1,
                    ) == slots@[j],
                forall|k: (u16, u32)| #[trigger]
                    all.contains_key(k) ==> if done.contains(k) {
                        all[k].timed(self@.sessions[k], now)
                    } else {
                        self@.sessions[k] == all[k]
                    },
                out@.map_values(|f: OutFrame| f@) == all_resends(all, done, now),
            decreases slots@.len() - i,
        {
            let k: u128 = slots[i];
            let ghost before = *self;
            let ghost key0 = first.sessions@[k].key;
            let ghost key = (key0.remote_node, key0.epoch);
            proof {
                first.sessions.lemma_positions();
                assert(first.sessions@.contains_key(first.sessions.key_seq()[i as int]));
                assert(first.session_ok(k));
                assert(all.contains_key(key) && all[key] == first.sessions@[k]);
                assert(!done.contains(key)) by {
                    if done.contains(key) {
                        let j = choose|j: int| 0 <= j < done.len() && done[j] == key;
                        assert(slots@[j] == k);
                    }
                }
                assert(self@.sessions.contains_key(key));
                self.lemma_sessions(key);
            }
            match self.sessions.get_mut(k) {
                Some(s) => {
                    let dst: u16 = s.key.remote_node;
                    let ghost s0 = *s;
                    assert(s0 == before@.sessions[key]);
                    assert(s0 == all[key]);
                    let frames = s.resend_due(now);
                    proof {
                        let views = frames@.map_values(|f: Vec<u8>| f@);
                        assert forall|j: int| 0 <= j < frames@.len() implies #[trigger] views[j]
                            == frames@[j]@ by {}
                        let out_frames = frames@.map_values(|f: Vec<u8>| (dst, f@));
                        assert(views.len() == frames@.len());
                        if s0.resends(now) {
                            let due = due_frames(s0.retransmit_queue@, now);
                            assert(views == due);
                            assert forall|j: int| 0 <= j < out_frames.len() implies out_frames[j]
                                == #[trigger] resends_of(s0, now)[j] by {
                                assert(views[j] == due[j]);
                            }
                        }
                        assert(out_frames =~= resends_of(s0, now));
                    }
                    send_all(&mut out, dst, frames);
                },
                None => {},
            }
            proof {
                Self::lemma_with(before, *self, key);
                let next = done.push(key);
                assert(next.drop_last() =~= done);
                assert forall|c: (u16, u32)| next.contains(c) <==> done.contains(c) || c == key by {
                    if done.contains(c) {
                        let p = choose|p: int| 0 <= p < done.len() && done[p] == c;
                        assert(next[p] == c);
                    }
                    assert(next[done.len() as int] == key);
                }
                assert(out@.map_values(|f: OutFrame| f@) =~= all_resends(all, next, now));
                done = next;
                assert(self@.sessions.dom() =~= all.dom());
            }
            i = i + 1;
        }
        proof {
            first.sessions.lemma_positions();
            assert forall|k: (u16, u32)| done.to_set().contains(k) <==> all.dom().contains(k) by {
                if all.contains_key(k) {
                    let p = slot(k.0, k.1);
                    assert(first.sessions@.contains_key(p));
                    let j = choose|j: int|
                        0 <= j < first.sessions.key_seq().len() && first.sessions.key_seq()[j] == p
                            && first.sessions.val_seq()[j] == first.sessions@[p];
                    assert(slot(done[j].0, done[j].1) == slots@[j]);
                    assert(done[j] == k);
                }
            }
            assert(done.to_set() =~= all.dom());
            assert(done.no_duplicates());
            assert(lists(done, all.dom()));
            assert(self@ =~= TransportView { sessions: self@.sessions, ..first@ });
            assert forall|k: (u16, u32)| #[trigger] all.contains_key(k) implies all[k].timed(
                self@.sessions[k],
                now,
            ) by {
                assert(done.to_set().contains(k));
            }
            let sent = out@.map_values(|f: OutFrame| f@);
            assert forall|k: (u16, u32), i: int|
                ({
                    let s = all[k];
                    &&& all.contains_key(k)
                    &&& s.state == SessionState::Active
                    &&& forall|j: int|
                        0 <= j < s.retransmit_queue@.len() && now >= (
                        #[trigger] s.retransmit_queue@[j]).rto_deadline
                            ==> s.retransmit_queue@[j].retry_count < s.max_retries
                    &&& 0 <= i < s.retransmit_queue@.len()
                    &&& now >= (#[trigger] all[k].retransmit_queue@[i]).rto_deadline
                }) implies exists|f: int|
                0 <= f < out@.len() && (#[trigger] out@[f]).dst == all[k].key.remote_node
                    && out@[f].frame@ == all[k].retransmit_queue@[i].frame@ by {
                assert(done.to_set().contains(k));
                lemma_all_resent(all, done, now, k, i);
                let want = (all[k].key.remote_node, all[k].retransmit_queue@[i].frame@);
                let f = choose|f: int| 0 <= f < sent.len() && sent[f] == want;
                assert(sent[f] == out@[f]@);
            }
        }
        out
    }
}

fn send_all(out: &mut Vec<OutFrame>, dst: u16, frames: Vec<Vec<u8>>)
    ensures
        final(out)@.map_values(|f: OutFrame| f@) == old(out)@.map_values(|f: OutFrame| f@)
            + frames@.map_values(|f: Vec<u8>| (dst, f@)),
{
    let mut i: usize = 0;
    while i < frames.len()
        invariant
            i <= frames@.len(),
            out@.map_values(|f: OutFrame| f@) == old(out)@.map_values(|f: OutFrame| f@)
                + frames@.take(i as int).map_values(|f: Vec<u8>| (dst, f@)),
        decreases frames@.len() - i,
    {
        let ghost before = out@;
        out.push(OutFrame { dst, frame: slice_to_vec(frames[i].as_slice()) });
        proof {
            let had = old(out)@.map_values(|f: OutFrame| f@);
            let now_out = out@.map_values(|f: OutFrame| f@);
            let more = frames@.take(i + 1).map_values(|f: Vec<u8>| (dst, f@));
            let less = frames@.take(i as int).map_values(|f: Vec<u8>| (dst, f@));
            assert(more =~= less.push((dst, frames@[i as int]@)));
            assert(now_out =~= before.map_values(|f: OutFrame| f@).push((dst, frames@[i as int]@)));
            assert(now_out =~= had + more);
        }
        i = i + 1;
    }
    assert(frames@.take(i as int) =~= frames@);
}

} // verus!
