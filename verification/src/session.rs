//! Reliable sessions: sequencing, retransmission, credits, congestion window and
//! duplicate detection for one peer. Times are in milliseconds.
use crate::be::{be_bytes, be_value, lemma_be_bytes_len, lemma_pow256_values, lemma_value_of_bytes};
use crate::dedup::{DedupResult, DedupView, DedupWindow};
use crate::error::UbError;
use crate::codec::{frame_bytes, header_bytes};
use crate::frame::{AckPayload, AckView, DataExtHeader, FrameFlags, FrameHeader};
use crate::read_cache::{ReadCacheView, ReadResponseCache};
use crate::wire::put_u64;
use std::collections::VecDeque;
use vstd::arithmetic::power2::{lemma2_to64, lemma_pow2_strictly_increases, pow2};
use vstd::prelude::*;
use vstd::slice::slice_to_vec;

verus! {

/// Identifies a session.
#[derive(Debug, Clone, Copy, PartialEq, Eq, Hash, Structural)]
pub struct SessionKey {
    pub local_node: u16,
    pub remote_node: u16,
    pub epoch: u32,
}

/// Whether a session is operational.
#[derive(Debug, Clone, Copy, PartialEq, Eq, Structural)]
pub enum SessionState {
    Active,
    Dead,
}

/// A frame that waits for its acknowledgement or its response.
#[derive(Debug)]
pub struct RetransmitEntry {
    pub seq: u64,
    pub frame: Vec<u8>,
    pub first_sent_at: u64,
    pub rto_deadline: u64,
    pub retry_count: u32,
    pub is_fire_and_forget: bool,
    pub opaque: u64,
}

/// What to do with a received frame.
#[derive(Debug, Clone, Copy, PartialEq, Eq, Structural)]
pub enum ReceiveAction {
    /// New and in order: deliver.
    Deliver,
    /// Received before: acknowledge again.
    Duplicate,
    /// There is a gap before it: acknowledge selectively.
    OutOfOrder,
    /// Beyond the window: discard.
    BeyondWindow,
}

/// The retransmission timeout closest to an estimate: from 200 ms to a minute.
pub open spec fn clamp_rto(ms: u64) -> u64 {
    if ms < 200 {
        200
    } else if ms > 60000 {
        60000
    } else {
        ms
    }
}

/// A timeout lies between 200 ms and a minute. An estimate in between is taken as it is, and
/// a longer estimate never gives a shorter timeout.
pub proof fn lemma_clamped(ms: u64, longer: u64)
    ensures
        200 <= clamp_rto(ms) <= 60_000,
        200 <= ms <= 60_000 ==> clamp_rto(ms) == ms,
        ms < 200 ==> clamp_rto(ms) == 200,
        ms <= longer ==> clamp_rto(ms) <= clamp_rto(longer),
{
}

/// A frame with its sequence number (bytes 16 to 23) and the acknowledgement request (the
/// lowest bit of byte 7) filled in, as far as the frame is long enough for them.
pub open spec fn stamped(frame: Seq<u8>, seq: u64) -> Seq<u8> {
    let numbered = if frame.len() >= 24 {
        frame.take(16) + be_bytes(seq as nat, 8) + frame.skip(24)
    } else {
        frame
    };
    if frame.len() >= 8 {
        numbered.update(7, numbered[7] | 1)
    } else {
        numbered
    }
}

/// Stamping the bytes of a frame gives the bytes of the frame with that sequence number and
/// the acknowledgement request set.
pub proof fn lemma_stamped_frame(
    header: FrameHeader,
    ext: Option<DataExtHeader>,
    payload: Seq<u8>,
    seq: u64,
    flags: FrameFlags,
)
    requires
        flags.spec_bits() == header.flags.spec_bits() | 1,
    ensures
        stamped(frame_bytes(header, ext, payload), seq) == frame_bytes(
            FrameHeader { stream_seq: seq, flags, ..header },
            ext,
            payload,
        ),
{
    broadcast use lemma_be_bytes_len;

    reveal(header_bytes);
    let a = header.flags.spec_bits();
    let b = flags.spec_bits();
    assert(b / 256 == a / 256 && b % 256 == ((a % 256) as u8 | 1) as u16) by (bit_vector)
        requires
            b == a | 1,
    ;
    reveal_with_fuel(be_bytes, 3);
    let before = frame_bytes(header, ext, payload);
    let after = frame_bytes(FrameHeader { stream_seq: seq, flags, ..header }, ext, payload);
    assert(before.len() >= 32 && after.len() == before.len());
    assert(stamped(before, seq) =~= after);
}

/// Stamping writes the number into bytes 16 to 23 and sets the lowest bit of byte 7. It
/// changes no other byte, and no number where the frame has no room for one.
pub proof fn lemma_stamped_bytes(frame: Seq<u8>, seq: u64, i: int)
    ensures
        stamped(frame, seq).len() == frame.len(),
        frame.len() >= 24 ==> be_value(stamped(frame, seq).subrange(16, 24)) == seq,
        0 <= i < frame.len() && i != 7 && !(16 <= i < 24 && frame.len() >= 24) ==> stamped(
            frame,
            seq,
        )[i] == frame[i],
        frame.len() >= 8 ==> stamped(frame, seq)[7] == frame[7] | 1,
{
    broadcast use lemma_be_bytes_len;

    if frame.len() >= 24 {
        assert(stamped(frame, seq).subrange(16, 24) =~= be_bytes(seq as nat, 8));
        lemma_pow256_values();
        lemma_value_of_bytes(seq as nat, 8);
    }
}

/// Whether the entries of a queue have rising sequence numbers below `next`.
pub open spec fn in_order(q: Seq<RetransmitEntry>, next: u64) -> bool {
    &&& forall|i: int, j: int|
        0 <= i < j < q.len() ==> (#[trigger] q[i]).seq < (#[trigger] q[j]).seq
    &&& forall|i: int| 0 <= i < q.len() ==> (#[trigger] q[i]).seq < next
}

/// Filtering once is enough.
proof fn lemma_filter_twice(q: Seq<RetransmitEntry>, f: spec_fn(RetransmitEntry) -> bool)
    ensures
        q.filter(f).filter(f) == q.filter(f),
    decreases q.len(),
{
    reveal(Seq::filter);
    if q.len() > 0 {
        let rest = q.drop_last().filter(f);
        lemma_filter_twice(q.drop_last(), f);
        if f(q.last()) {
            assert(rest.push(q.last()).drop_last() =~= rest);
        }
    }
}

proof fn lemma_filter_in_order(q: Seq<RetransmitEntry>, f: spec_fn(RetransmitEntry) -> bool, next: u64)
    requires
        in_order(q, next),
    ensures
        in_order(q.filter(f), next),
    decreases q.len(),
{
    reveal(Seq::filter);
    if q.len() > 0 {
        let l = q.drop_last();
        assert(in_order(l, q.last().seq));
        lemma_filter_in_order(l, f, q.last().seq);
        let kept = l.filter(f);
        if f(q.last()) {
            assert(q.filter(f) == kept.push(q.last()));
        } else {
            assert(q.filter(f) == kept);
        }
    }
}

/// Whether an acknowledgement up to `ack_seq` settles an entry: requests stay until their
/// response arrives.
pub open spec fn settled(e: RetransmitEntry, ack_seq: u64) -> bool {
    e.seq <= ack_seq && e.is_fire_and_forget
}

/// The entries that an acknowledgement up to `ack_seq` does not settle.
pub open spec fn unsettled(ack_seq: u64) -> spec_fn(RetransmitEntry) -> bool {
    |e: RetransmitEntry| !settled(e, ack_seq)
}

/// Whether an entry is a request that waits for the response `opaque`.
pub open spec fn awaits(e: RetransmitEntry, opaque: u64) -> bool {
    e.opaque == opaque && !e.is_fire_and_forget
}

/// The entry after it was sent again at `now`: the next deadline doubles with every retry,
/// up to ten times.
pub open spec fn retried(e: RetransmitEntry, now: u64, rto_base_ms: u64) -> RetransmitEntry {
    let n = (e.retry_count + 1) as u32;
    RetransmitEntry {
        retry_count: n,
        rto_deadline: (now + rto_base_ms * pow2(if n < 10 {
            n as nat
        } else {
            10
        })) as u64,
        ..e
    }
}

/// The sequence numbers of the entries that are due at `now`.
pub open spec fn due_seqs(q: Seq<RetransmitEntry>, now: u64) -> Seq<u64>
    decreases q.len(),
{
    if q.len() == 0 {
        Seq::empty()
    } else if now >= q.last().rto_deadline {
        due_seqs(q.drop_last(), now).push(q.last().seq)
    } else {
        due_seqs(q.drop_last(), now)
    }
}

/// The frames of the entries that are due at `now`.
pub open spec fn due_frames(q: Seq<RetransmitEntry>, now: u64) -> Seq<Seq<u8>>
    decreases q.len(),
{
    if q.len() == 0 {
        Seq::empty()
    } else if now >= q.last().rto_deadline {
        due_frames(q.drop_last(), now).push(q.last().frame@)
    } else {
        due_frames(q.drop_last(), now)
    }
}

/// Due sequence numbers and due frames belong to the same entries.
pub proof fn lemma_due(q: Seq<RetransmitEntry>, now: u64)
    ensures
        due_seqs(q, now).len() == due_frames(q, now).len(),
        forall|k: int|
            0 <= k < due_seqs(q, now).len() ==> exists|i: int|
                0 <= i < q.len() && (#[trigger] q[i]).seq == #[trigger] due_seqs(q, now)[k]
                    && q[i].frame@ == due_frames(q, now)[k],
    decreases q.len(),
{
    if q.len() > 0 {
        let l = q.drop_last();
        lemma_due(l, now);
        assert forall|k: int| 0 <= k < due_seqs(q, now).len() implies exists|i: int|
            0 <= i < q.len() && (#[trigger] q[i]).seq == #[trigger] due_seqs(q, now)[k]
                && q[i].frame@ == due_frames(q, now)[k] by {
            if k < due_seqs(l, now).len() {
                assert(due_seqs(q, now)[k] == due_seqs(l, now)[k]);
                let i = choose|i: int|
                    0 <= i < l.len() && (#[trigger] l[i]).seq == due_seqs(l, now)[k]
                        && l[i].frame@ == due_frames(l, now)[k];
                assert(q[i] == l[i]);
            } else {
                assert(q[q.len() - 1] == q.last());
            }
        }
    }
}

/// The wait after a resend is the base, doubled once for each resend up to the tenth.
proof fn lemma_retry_wait(e: RetransmitEntry, now: u64, rto_base_ms: u64)
    requires
        now + rto_base_ms * 1024 <= u64::MAX,
        e.retry_count < u32::MAX,
    ensures
        e.retry_count < 9 ==> retried(e, now, rto_base_ms).rto_deadline == now + rto_base_ms * pow2(
            (e.retry_count + 1) as nat,
        ),
        e.retry_count >= 9 ==> retried(e, now, rto_base_ms).rto_deadline == now + rto_base_ms
            * 1024,
{
    lemma2_to64();
    let n: nat = if e.retry_count < 9 {
        (e.retry_count + 1) as nat
    } else {
        10
    };
    if n < 10 {
        lemma_pow2_strictly_increases(n, 10);
    }
    assert(0 <= rto_base_ms * pow2(n) <= rto_base_ms * 1024) by (nonlinear_arith)
        requires
            0 <= pow2(n) <= 1024,
            0 <= rto_base_ms,
    ;
}

/// An entry whose deadline has passed is due: its number and its frame stand at one place.
pub proof fn lemma_is_due(q: Seq<RetransmitEntry>, now: u64, i: int) -> (k: int)
    requires
        0 <= i < q.len(),
        now >= q[i].rto_deadline,
    ensures
        0 <= k < due_seqs(q, now).len(),
        due_seqs(q, now).len() == due_frames(q, now).len(),
        due_seqs(q, now)[k] == q[i].seq,
        due_frames(q, now)[k] == q[i].frame@,
    decreases q.len(),
{
    lemma_due(q, now);
    let l = q.drop_last();
    lemma_due(l, now);
    if i < l.len() {
        lemma_is_due(l, now, i)
    } else {
        due_seqs(l, now).len() as int
    }
}

/// What is due is the number and the frame of an entry whose deadline has passed.
pub proof fn lemma_due_is(q: Seq<RetransmitEntry>, now: u64, k: int) -> (i: int)
    requires
        0 <= k < due_seqs(q, now).len(),
    ensures
        0 <= i < q.len(),
        now >= q[i].rto_deadline,
        q[i].seq == due_seqs(q, now)[k],
        q[i].frame@ == due_frames(q, now)[k],
    decreases q.len(),
{
    let l = q.drop_last();
    lemma_due(l, now);
    if k < due_seqs(l, now).len() {
        lemma_due_is(l, now, k)
    } else {
        q.len() - 1
    }
}

/// The frame of every entry whose deadline has passed is among the due ones.
proof fn lemma_frames_of_due(q: Seq<RetransmitEntry>, now: u64, out: Seq<Vec<u8>>)
    requires
        out.len() == due_frames(q, now).len(),
        forall|k: int| 0 <= k < out.len() ==> (#[trigger] out[k])@ == due_frames(q, now)[k],
    ensures
        forall|i: int|
            0 <= i < q.len() && now >= (#[trigger] q[i]).rto_deadline ==> exists|k: int|
                0 <= k < out.len() && (#[trigger] out[k])@ == q[i].frame@,
{
    lemma_due(q, now);
    assert forall|i: int| 0 <= i < q.len() && now >= (
    #[trigger] q[i]).rto_deadline implies exists|k: int|
        0 <= k < out.len() && (#[trigger] out[k])@ == q[i].frame@ by {
        let k = lemma_is_due(q, now, i);
        assert(out[k]@ == q[i].frame@);
    }
}

/// Each entry is due once, and in the order of the numbers.
pub proof fn lemma_due_once(q: Seq<RetransmitEntry>, now: u64, a: int, b: int)
    requires
        forall|i: int, j: int|
            0 <= i < j < q.len() ==> (#[trigger] q[i]).seq < (#[trigger] q[j]).seq,
        0 <= a < b < due_seqs(q, now).len(),
    ensures
        due_seqs(q, now)[a] < due_seqs(q, now)[b],
    decreases q.len(),
{
    let l = q.drop_last();
    assert forall|i: int, j: int| 0 <= i < j < l.len() implies (#[trigger] l[i]).seq < (
    #[trigger] l[j]).seq by {
        assert(q[i].seq < q[j].seq);
    }
    if b < due_seqs(l, now).len() {
        lemma_due_once(l, now, a, b);
    } else {
        let i = lemma_due_is(l, now, a);
        assert(q[i].seq < q[q.len() - 1].seq);
    }
}

/// Every frame that was sent once, asks for no response and is covered by the
/// acknowledgement gives the time since it was sent as a sample, where any has passed, and
/// nothing else does.
pub proof fn lemma_samples(q: Seq<RetransmitEntry>, ack_seq: u64, now: u64)
    ensures
        forall|i: int|
            0 <= i < q.len() && (#[trigger] q[i]).seq <= ack_seq && q[i].is_fire_and_forget
                && q[i].retry_count == 0 && now > q[i].first_sent_at ==> samples_of(
                q,
                ack_seq,
                now,
            ).contains((now - q[i].first_sent_at) as u64),
        forall|k: int|
            0 <= k < samples_of(q, ack_seq, now).len() ==> exists|i: int|
                0 <= i < q.len() && (#[trigger] q[i]).seq <= ack_seq && q[i].is_fire_and_forget
                    && q[i].retry_count == 0 && #[trigger] samples_of(q, ack_seq, now)[k] == now
                    - q[i].first_sent_at,
    decreases q.len(),
{
    if q.len() > 0 {
        let l = q.drop_last();
        let a = samples_of(l, ack_seq, now);
        let b = samples_of(q, ack_seq, now);
        lemma_samples(l, ack_seq, now);
        assert forall|i: int|
            0 <= i < q.len() && (#[trigger] q[i]).seq <= ack_seq && q[i].is_fire_and_forget
                && q[i].retry_count == 0 && now > q[i].first_sent_at implies b.contains(
            (now - q[i].first_sent_at) as u64,
        ) by {
            if i < l.len() {
                assert(l[i] == q[i]);
                let x = (now - q[i].first_sent_at) as u64;
                let k = choose|k: int| 0 <= k < a.len() && a[k] == x;
                assert(b[k] == x);
            } else {
                assert(b[a.len() as int] == now - q[i].first_sent_at);
            }
        }
        assert forall|k: int| 0 <= k < b.len() implies exists|i: int|
            0 <= i < q.len() && (#[trigger] q[i]).seq <= ack_seq && q[i].is_fire_and_forget
                && q[i].retry_count == 0 && #[trigger] b[k] == now - q[i].first_sent_at by {
            if k < a.len() {
                assert(b[k] == a[k]);
                let i = choose|i: int|
                    0 <= i < l.len() && (#[trigger] l[i]).seq <= ack_seq && l[i].is_fire_and_forget
                        && l[i].retry_count == 0 && a[k] == now - l[i].first_sent_at;
                assert(q[i] == l[i]);
            } else {
                assert(q[q.len() - 1] == q.last());
            }
        }
    }
}

/// The round-trip samples that an acknowledgement gives: one for every settled entry that
/// was sent once, where time has passed since.
pub open spec fn samples_of(q: Seq<RetransmitEntry>, ack_seq: u64, now: u64) -> Seq<u64>
    decreases q.len(),
{
    if q.len() == 0 {
        Seq::empty()
    } else {
        let e = q.last();
        let before = samples_of(q.drop_last(), ack_seq, now);
        if settled(e, ack_seq) && e.retry_count == 0 && now > e.first_sent_at {
            before.push((now - e.first_sent_at) as u64)
        } else {
            before
        }
    }
}

/// Whether bit `i` of a selective acknowledgement is set.
pub open spec fn sack_bit(bitmap: Seq<u8>, i: int) -> bool {
    (bitmap[i / 8] >> ((i % 8) as u8)) & 1 == 1
}

proof fn lemma_sack_bit(w: u8, b: u8, j: u8)
    by (bit_vector)
    requires
        b < 8,
        j < 8,
    ensures
        (((w | (1u8 << b)) >> j) & 1 == 1) == ((w >> j) & 1 == 1 || j == b),
        (0u8 >> j) & 1 == 0,
{
}

/// A reliable session with one peer.
pub struct ReliableSession {
    pub key: SessionKey,
    pub state: SessionState,
    /// The next sequence number to assign.
    pub next_seq: u64,
    /// How many frames may still be sent.
    pub available_credits: u32,
    /// Frames that wait for an acknowledgement or a response.
    pub retransmit_queue: VecDeque<RetransmitEntry>,
    pub rto_base_ms: u64,
    pub max_retries: u32,
    /// Congestion window, in frames.
    pub cwnd: u32,
    /// Slow-start threshold.
    pub ssthresh: u32,
    /// Current retransmission timeout.
    pub rto: u64,
    /// How many acknowledgements in a row did not advance.
    pub dup_ack_count: u32,
    /// The highest number that was acknowledged.
    pub last_ack_seq: u64,
    /// Received sequence numbers.
    pub dedup: DedupWindow,
    /// Which frames have been executed.
    pub execution_records: VecDeque<(u64, bool)>,
    /// Responses to reads.
    pub read_cache: ReadResponseCache,
    /// Credits to grant with the next acknowledgement.
    pub credits_to_grant: u32,
    pub frames_since_last_ack: u32,
}

impl ReliableSession {
    pub open spec fn wf(&self) -> bool {
        &&& self.dedup.wf()
        &&& self.read_cache.wf()
        &&& self.dup_ack_count < 3
        &&& 200 <= self.rto <= 60000
        &&& self.execution_records@.len() <= 1024
        &&& in_order(self.retransmit_queue@, self.next_seq)
        &&& self.dedup@.window == 1024
    }

    /// Whether a frame with the given sequence number can be received without a counter
    /// running over.
    pub open spec fn can_receive(&self, seq: u64) -> bool {
        &&& self.frames_since_last_ack < u32::MAX
        &&& self.credits_to_grant < u32::MAX
        &&& seq == self.dedup@.next ==> self.dedup@.next + self.dedup@.window <= u64::MAX
        &&& self.action_for(seq) == ReceiveAction::OutOfOrder ==> self.dedup@.next + 255
            <= u64::MAX
    }

    /// Whether a frame has been executed.
    pub open spec fn spec_executed(&self, seq: u64) -> bool {
        self.execution_records@.contains((seq, true))
    }

    /// Whether this is a session that nothing has gone through yet.
    pub open spec fn is_new(
        self,
        key: SessionKey,
        rto_base_ms: u64,
        max_retries: u32,
        initial_credits: u32,
    ) -> bool {
        &&& self.key == key
        &&& self.state == SessionState::Active
        &&& self.next_seq == 1
        &&& self.available_credits == initial_credits
        &&& self.retransmit_queue@.len() == 0
        &&& self.rto_base_ms == rto_base_ms
        &&& self.max_retries == max_retries
        &&& self.cwnd == initial_credits
        &&& self.ssthresh == u32::MAX
        &&& self.rto == clamp_rto(rto_base_ms)
        &&& self.dup_ack_count == 0
        &&& self.last_ack_seq == 0
        &&& self.dedup@ == (DedupView { next: 1, window: 1024, ahead: Set::empty() })
        &&& self.execution_records@.len() == 0
        &&& self.read_cache@ == (ReadCacheView {
            entries: Map::empty(),
            capacity: 1024,
            ttl_ms: 5000,
            next_order: 0,
        })
        &&& self.credits_to_grant == 0
        &&& self.frames_since_last_ack == 0
    }

    pub fn new(
        local_node: u16,
        remote_node: u16,
        epoch: u32,
        rto_base_ms: u64,
        max_retries: u32,
        initial_credits: u32,
    ) -> (r: Self)
        ensures
            r.wf(),
            r.is_new(
                SessionKey { local_node, remote_node, epoch },
                rto_base_ms,
                max_retries,
                initial_credits,
            ),
    {
        ReliableSession {
            key: SessionKey { local_node, remote_node, epoch },
            state: SessionState::Active,
            next_seq: 1,
            available_credits: initial_credits,
            retransmit_queue: VecDeque::new(),
            rto_base_ms,
            max_retries,
            cwnd: initial_credits,
            ssthresh: u32::MAX,
            rto: clamp(rto_base_ms),
            dup_ack_count: 0,
            last_ack_seq: 0,
            dedup: DedupWindow::new(1),
            execution_records: VecDeque::new(),
            read_cache: ReadResponseCache::default_cache(),
            credits_to_grant: 0,
            frames_since_last_ack: 0,
        }
    }

    /// Whether `after` is this session with a frame queued for retransmission under the
    /// next sequence number.
    pub open spec fn queued(
        self,
        after: Self,
        frame: Seq<u8>,
        is_fire_and_forget: bool,
        opaque: u64,
        now: u64,
    ) -> bool {
        let e = after.retransmit_queue@.last();
        &&& after.retransmit_queue@.len() == self.retransmit_queue@.len() + 1
        &&& after.retransmit_queue@.drop_last() == self.retransmit_queue@
        &&& e.seq == self.next_seq
        &&& e.frame@ == frame
        &&& e.first_sent_at == now
        &&& e.rto_deadline == now + self.rto
        &&& e.retry_count == 0
        &&& e.is_fire_and_forget == is_fire_and_forget
        &&& e.opaque == opaque
        &&& after == (ReliableSession {
            next_seq: (self.next_seq + 1) as u64,
            retransmit_queue: after.retransmit_queue,
            ..self
        })
    }

    /// A frame that was sent at `now` is sent again once the timeout of the session has
    /// passed, and not before; the frames ahead of it are due as they were.
    pub proof fn lemma_due_in_time(
        self,
        after: Self,
        frame: Seq<u8>,
        is_fire_and_forget: bool,
        opaque: u64,
        now: u64,
        later: u64,
    )
        requires
            self.queued(after, frame, is_fire_and_forget, opaque, now),
        ensures
            later >= now + self.rto ==> due_seqs(after.retransmit_queue@, later) == due_seqs(
                self.retransmit_queue@,
                later,
            ).push(self.next_seq) && due_frames(after.retransmit_queue@, later) == due_frames(
                self.retransmit_queue@,
                later,
            ).push(frame),
            later < now + self.rto ==> due_seqs(after.retransmit_queue@, later) == due_seqs(
                self.retransmit_queue@,
                later,
            ),
            after.next_seq == self.next_seq + 1 || self.next_seq == u64::MAX,
            after.available_credits == self.available_credits,
            after.cwnd == self.cwnd,
            after.retransmit_queue@.len() == self.retransmit_queue@.len() + 1,
            ({
                let e = after.retransmit_queue@[self.retransmit_queue@.len() as int];
                &&& e.seq == self.next_seq
                &&& e.frame@ == frame
                &&& e.first_sent_at == now
                &&& e.retry_count == 0
                &&& e.is_fire_and_forget == is_fire_and_forget
                &&& e.opaque == opaque
            }),
    {
    }

    /// A new session is active and expects the peer's frames from number 1 on, as its own
    /// start there. It may send as many frames as it was given credits, owes the peer
    /// nothing, and has nothing to send again.
    pub proof fn lemma_new_session(
        self,
        key: SessionKey,
        rto_base_ms: u64,
        max_retries: u32,
        initial_credits: u32,
        now: u64,
    )
        requires
            self.is_new(key, rto_base_ms, max_retries, initial_credits),
        ensures
            self.key == key,
            self.state == SessionState::Active,
            self.next_seq == 1,
            self.action_for(1) == ReceiveAction::Deliver,
            self.action_for(0) == ReceiveAction::Duplicate,
            self.available_credits == initial_credits,
            self.cwnd == initial_credits,
            self.ssthresh == u32::MAX,
            200 <= self.rto <= 60_000,
            200 <= rto_base_ms <= 60_000 ==> self.rto == rto_base_ms,
            self.rto_base_ms == rto_base_ms,
            self.max_retries == max_retries,
            self.retransmit_queue@.len() == 0,
            self.resent(now).len() == 0,
            !self.wants_ack(),
            self.last_ack_seq == 0,
            self.dup_ack_count == 0,
            forall|seq: u64| !#[trigger] self.execution_records@.contains((seq, true)),
            self.read_cache@.entries.dom() == Set::<u128>::empty(),
    {
        assert(self.read_cache@.entries.dom() =~= Set::<u128>::empty());
    }

    /// Takes the next sequence number, stamps the frame with it and queues a copy for
    /// retransmission.
    pub fn assign_seq(
        &mut self,
        frame: &mut Vec<u8>,
        is_fire_and_forget: bool,
        opaque: u64,
        now: u64,
    ) -> (seq: u64)
        requires
            old(self).wf(),
            old(self).next_seq < u64::MAX,
            now + old(self).rto <= u64::MAX,
        ensures
            final(self).wf(),
            seq == old(self).next_seq,
            final(frame)@ == stamped(old(frame)@, seq),
            old(self).queued(*final(self), final(frame)@, is_fire_and_forget, opaque, now),
    {
        let seq: u64 = self.next_seq;
        self.next_seq = seq + 1;
        stamp(frame, seq);
        self.retransmit_queue.push_back(
            RetransmitEntry {
                seq,
                frame: slice_to_vec(frame.as_slice()),
                first_sent_at: now,
                rto_deadline: now + self.rto,
                retry_count: 0,
                is_fire_and_forget,
                opaque,
            },
        );
        assert(self.retransmit_queue@.drop_last() =~= old(self).retransmit_queue@);
        seq
    }

    /// The round-trip times, in milliseconds, that an acknowledgement received at `now`
    /// tells of. Frames that were sent more than once tell nothing.
    pub fn rtt_samples(&self, ack: &AckPayload, now: u64) -> (r: Vec<u64>)
        ensures
            r@ == (if self.advances(ack@) {
                samples_of(self.retransmit_queue@, ack@.ack_seq, now)
            } else {
                Seq::empty()
            }),
    {
        let mut out: Vec<u64> = Vec::new();
        if ack.ack_seq <= self.last_ack_seq {
            return out;
        }
        let n: usize = self.retransmit_queue.len();
        let mut i: usize = 0;
        let ghost q = self.retransmit_queue@;
        while i < n
            invariant
                i <= n,
                n == q.len(),
                q == self.retransmit_queue@,
                out@ == samples_of(q.take(i as int), ack.ack_seq, now),
            decreases n - i,
        {
            proof {
                assert(q.take(i + 1).drop_last() =~= q.take(i as int));
            }
            let e = &self.retransmit_queue[i];
            if e.seq <= ack.ack_seq && e.is_fire_and_forget && e.retry_count == 0 && now
                > e.first_sent_at {
                out.push(now - e.first_sent_at);
            }
            i = i + 1;
        }
        assert(q.take(i as int) =~= q);
        out
    }

    /// Sets the retransmission timeout from an estimate.
    pub fn set_rto(&mut self, estimate_ms: u64)
        requires
            old(self).wf(),
        ensures
            final(self).wf(),
            *final(self) == (ReliableSession { rto: clamp_rto(estimate_ms), ..*old(self) }),
    {
        self.rto = clamp(estimate_ms);
    }

    /// Whether an acknowledgement advances: it acknowledges more than any before it.
    pub open spec fn advances(self, ack: AckView) -> bool {
        ack.ack_seq > self.last_ack_seq
    }

    /// Whether `after` is what an acknowledgement makes of this session. One that advances
    /// lets the congestion window grow.
    pub open spec fn acked(self, after: Self, ack: AckView) -> bool {
        &&& after.retransmit_queue@ == self.retransmit_queue@.filter(
            unsettled(ack.ack_seq),
        )
        &&& after == (ReliableSession {
            retransmit_queue: after.retransmit_queue,
            available_credits: after_credits(self.available_credits, ack.credit_grant),
            cwnd: if self.advances(ack) {
                grown(self.cwnd, self.ssthresh)
            } else {
                self.cwnd
            },
            dup_ack_count: if self.advances(ack) {
                0
            } else {
                self.dup_ack_count
            },
            last_ack_seq: if self.advances(ack) {
                ack.ack_seq
            } else {
                self.last_ack_seq
            },
            ..self
        })
    }

    /// An acknowledgement takes exactly those frames out of the queue that it covers and that
    /// ask for no response. It adds the granted credits. One that acknowledges more than any
    /// before it doubles the window below the threshold, adds one to it from there on, and
    /// is remembered; another leaves the window alone.
    pub proof fn lemma_acknowledged(self, after: Self, ack: AckView, e: RetransmitEntry)
        requires
            self.acked(after, ack),
        ensures
            after.retransmit_queue@.contains(e) <==> self.retransmit_queue@.contains(e) && (e.seq
                > ack.ack_seq || !e.is_fire_and_forget),
            self.available_credits + ack.credit_grant <= u32::MAX ==> after.available_credits
                == self.available_credits + ack.credit_grant,
            self.available_credits + ack.credit_grant > u32::MAX ==> after.available_credits
                == u32::MAX,
            ack.ack_seq > self.last_ack_seq ==> {
                &&& after.last_ack_seq == ack.ack_seq
                &&& after.dup_ack_count == 0
                &&& self.cwnd < self.ssthresh && 2 * self.cwnd <= u32::MAX ==> after.cwnd == 2
                    * self.cwnd
                &&& self.cwnd >= self.ssthresh && self.cwnd < u32::MAX ==> after.cwnd == self.cwnd
                    + 1
                &&& after.cwnd >= self.cwnd
            },
            ack.ack_seq <= self.last_ack_seq ==> after.last_ack_seq == self.last_ack_seq
                && after.cwnd == self.cwnd && after.dup_ack_count == self.dup_ack_count,
            after.next_seq == self.next_seq,
            after.state == self.state,
            after.ssthresh == self.ssthresh,
            after.rto == self.rto,
            after.dedup == self.dedup,
            after.read_cache == self.read_cache,
            after.execution_records == self.execution_records,
            after.credits_to_grant == self.credits_to_grant,
    {
        let q = self.retransmit_queue@;
        let p = after.retransmit_queue@;
        let stay = unsettled(ack.ack_seq);
        if p.contains(e) {
            q.lemma_filter_contains_rev(stay, e);
            let k = choose|k: int| 0 <= k < p.len() && p[k] == e;
            q.lemma_filter_pred(stay, k);
        }
        if q.contains(e) && (e.seq > ack.ack_seq || !e.is_fire_and_forget) {
            let i = choose|i: int| 0 <= i < q.len() && q[i] == e;
            q.lemma_filter_contains(stay, i);
        }
    }

    /// An acknowledgement counts once: where it arrives again it does not advance, and but
    /// for the credits that it grants nothing changes.
    pub proof fn lemma_counts_once(self, once: Self, twice: Self, ack: AckView)
        requires
            self.acked(once, ack),
            once.acked(twice, ack),
        ensures
            !once.advances(ack),
            twice.retransmit_queue@ == once.retransmit_queue@,
            twice == (ReliableSession {
                retransmit_queue: twice.retransmit_queue,
                available_credits: after_credits(once.available_credits, ack.credit_grant),
                ..once
            }),
    {
        lemma_filter_twice(self.retransmit_queue@, unsettled(ack.ack_seq));
    }

    /// Processes an acknowledgement: removes and returns the entries that it settles, takes
    /// over the granted credits, and lets the congestion window grow where it advances.
    pub fn process_ack(&mut self, ack: &AckPayload) -> (removed: Vec<RetransmitEntry>)
        requires
            old(self).wf(),
        ensures
            final(self).wf(),
            removed@ == old(self).retransmit_queue@.filter(
                |e: RetransmitEntry| settled(e, ack@.ack_seq),
            ),
            old(self).acked(*final(self), ack@),
            forall|e: RetransmitEntry| #[trigger]
                removed@.contains(e) <==> old(self).retransmit_queue@.contains(e) && e.seq
                    <= ack@.ack_seq && e.is_fire_and_forget,
    {
        let ack_seq: u64 = ack.ack_seq;
        let is_new_ack = ack_seq > self.last_ack_seq;
        let ghost all = self.retransmit_queue@;
        let ghost gone = |e: RetransmitEntry| settled(e, ack_seq);
        let ghost stay = unsettled(ack_seq);
        let mut removed: Vec<RetransmitEntry> = Vec::new();
        let mut keep: VecDeque<RetransmitEntry> = VecDeque::new();
        let mut queue: VecDeque<RetransmitEntry> = VecDeque::new();
        core::mem::swap(&mut queue, &mut self.retransmit_queue);
        let ghost mut i: int = 0;
        proof {
            reveal(Seq::filter);
            assert(queue@ =~= all.skip(0));
            assert(all.take(0) =~= Seq::empty());
        }
        while queue.len() > 0
            invariant
                0 <= i <= all.len(),
                queue@ == all.skip(i),
                gone == (|e: RetransmitEntry| settled(e, ack_seq)),
                stay == unsettled(ack_seq),
                removed@ == all.take(i).filter(gone),
                keep@ == all.take(i).filter(stay),
            decreases queue@.len(),
        {
            proof {
                reveal(Seq::filter);
                assert(all.take(i + 1).drop_last() =~= all.take(i));
                assert(all.skip(i + 1) =~= all.skip(i).subrange(1, all.skip(i).len() as int));
            }
            match queue.pop_front() {
                Some(entry) => {
                    assert(entry == all[i]);
                    if entry.seq <= ack_seq && entry.is_fire_and_forget {
                        removed.push(entry);
                    } else {
                        keep.push_back(entry);
                    }
                },
                None => {},
            }
            proof {
                i = i + 1;
                assert(queue@ =~= all.skip(i));
            }
        }
        proof {
            assert(all.take(i) =~= all);
            lemma_filter_in_order(all, stay, self.next_seq);
        }
        self.retransmit_queue = keep;
        self.add_credits(ack.credit_grant);
        if is_new_ack {
            self.last_ack_seq = ack_seq;
            self.on_new_ack();
        }
        proof {
            assert forall|e: RetransmitEntry| #[trigger]
                removed@.contains(e) <==> all.contains(e) && e.seq <= ack_seq
                    && e.is_fire_and_forget by {
                if removed@.contains(e) {
                    all.lemma_filter_contains_rev(gone, e);
                    let k = choose|k: int| 0 <= k < removed@.len() && removed@[k] == e;
                    all.lemma_filter_pred(gone, k);
                }
                if all.contains(e) && e.seq <= ack_seq && e.is_fire_and_forget {
                    let i = choose|i: int| 0 <= i < all.len() && all[i] == e;
                    all.lemma_filter_contains(gone, i);
                }
            }
        }
        removed
    }

    /// Processes an acknowledgement and watches for a loss. Returns the entries that it
    /// settles, and the first missing frame where it is the third in a row that does not
    /// advance. One that advances does not count among them.
    pub fn process_ack_with_fast_retransmit(&mut self, ack: &AckPayload) -> (r: (
        Vec<RetransmitEntry>,
        Option<u64>,
    ))
        requires
            old(self).wf(),
            old(self).can_count(ack@),
        ensures
            final(self).wf(),
            r.0@ == old(self).retransmit_queue@.filter(
                |e: RetransmitEntry| settled(e, ack@.ack_seq),
            ),
            exists|mid: Self| #[trigger]
                old(self).acked(mid, ack@) && if old(self).advances(ack@) {
                    r.1 is None && *final(self) == mid
                } else {
                    mid.counted(*final(self), ack@, r.1)
                },
    {
        let is_new_ack = ack.ack_seq > self.last_ack_seq;
        let removed = self.process_ack(ack);
        let ghost mid = *self;
        assert(old(self).acked(mid, ack@));
        let missing = if is_new_ack {
            None
        } else {
            self.process_ack_for_fast_retransmit(ack)
        };
        (removed, missing)
    }

    /// Whether a request waits for the response `opaque`.
    pub open spec fn awaiting(self, opaque: u64) -> bool {
        exists|i: int|
            0 <= i < self.retransmit_queue@.len() && awaits(
                #[trigger] self.retransmit_queue@[i],
                opaque,
            )
    }

    /// Whether `after` is this session without the first request that waits for the
    /// response `opaque`.
    pub open spec fn answered(self, after: Self, opaque: u64) -> bool {
        if self.awaiting(opaque) {
            &&& exists|i: int|
                {
                    &&& 0 <= i < self.retransmit_queue@.len()
                    &&& awaits(#[trigger] self.retransmit_queue@[i], opaque)
                    &&& forall|j: int|
                        0 <= j < i ==> !awaits(#[trigger] self.retransmit_queue@[j], opaque)
                    &&& after.retransmit_queue@ == self.retransmit_queue@.remove(i)
                }
            &&& after == (ReliableSession { retransmit_queue: after.retransmit_queue, ..self })
        } else {
            after == self
        }
    }

    /// The response to a request takes one request with its identifier out of the queue, and
    /// nothing else: what asks for no response, and what waits for another, stays.
    pub proof fn lemma_answered(self, after: Self, opaque: u64, e: RetransmitEntry)
        requires
            self.answered(after, opaque),
        ensures
            e.is_fire_and_forget || e.opaque != opaque ==> (self.retransmit_queue@.contains(e)
                <==> after.retransmit_queue@.contains(e)),
            (exists|i: int|
                0 <= i < self.retransmit_queue@.len() && (
                #[trigger] self.retransmit_queue@[i]).opaque == opaque
                    && !self.retransmit_queue@[i].is_fire_and_forget)
                ==> after.retransmit_queue@.len() + 1 == self.retransmit_queue@.len(),
            after == (ReliableSession { retransmit_queue: after.retransmit_queue, ..self }),
    {
        let q = self.retransmit_queue@;
        let p = after.retransmit_queue@;
        if exists|i: int|
            0 <= i < q.len() && (#[trigger] q[i]).opaque == opaque && !q[i].is_fire_and_forget {
            let i = choose|i: int|
                0 <= i < q.len() && (#[trigger] q[i]).opaque == opaque && !q[i].is_fire_and_forget;
            assert(awaits(q[i], opaque));
        }
        if self.awaiting(opaque) {
            let i = choose|i: int|
                {
                    &&& 0 <= i < q.len()
                    &&& awaits(#[trigger] q[i], opaque)
                    &&& forall|j: int| 0 <= j < i ==> !awaits(#[trigger] q[j], opaque)
                    &&& p == q.remove(i)
                };
            if q.contains(e) {
                let j = choose|j: int| 0 <= j < q.len() && q[j] == e;
                if j < i {
                    assert(p[j] == e);
                } else if j > i {
                    assert(p[j - 1] == e);
                }
            }
            if p.contains(e) {
                let j = choose|j: int| 0 <= j < p.len() && p[j] == e;
                if j < i {
                    assert(q[j] == e);
                } else {
                    assert(q[j + 1] == e);
                }
            }
        }
    }

    /// Of several requests that wait under one identifier a response settles the first.
    pub proof fn lemma_first_answered(self, after: Self, opaque: u64, i: int)
        requires
            self.answered(after, opaque),
            0 <= i < self.retransmit_queue@.len(),
            self.retransmit_queue@[i].opaque == opaque,
            !self.retransmit_queue@[i].is_fire_and_forget,
            forall|j: int|
                0 <= j < i ==> (#[trigger] self.retransmit_queue@[j]).opaque != opaque
                    || self.retransmit_queue@[j].is_fire_and_forget,
        ensures
            after.retransmit_queue@ == self.retransmit_queue@.remove(i),
    {
        let q = self.retransmit_queue@;
        assert(awaits(q[i], opaque));
        let k = choose|k: int|
            {
                &&& 0 <= k < q.len()
                &&& awaits(#[trigger] q[k], opaque)
                &&& forall|j: int| 0 <= j < k ==> !awaits(#[trigger] q[j], opaque)
                &&& after.retransmit_queue@ == q.remove(k)
            };
        if k < i {
            assert(q[k].opaque != opaque || q[k].is_fire_and_forget);
        }
        assert(k == i);
    }

    /// Drops the request whose response `opaque` has arrived. Returns whether there was
    /// one.
    pub fn complete_request(&mut self, opaque: u64) -> (r: bool)
        requires
            old(self).wf(),
        ensures
            final(self).wf(),
            r == old(self).awaiting(opaque),
            old(self).answered(*final(self), opaque),
    {
        let n: usize = self.retransmit_queue.len();
        let mut i: usize = 0;
        while i < n
            invariant
                i <= n,
                n == self.retransmit_queue@.len(),
                *self == *old(self),
                self.wf(),
                forall|j: int|
                    0 <= j < i ==> !awaits(#[trigger] self.retransmit_queue@[j], opaque),
            decreases n - i,
        {
            let hit = {
                let e = &self.retransmit_queue[i];
                e.opaque == opaque && !e.is_fire_and_forget
            };
            if hit {
                assert(awaits(old(self).retransmit_queue@[i as int], opaque));
                self.retransmit_queue.remove(i);
                return true;
            }
            i = i + 1;
        }
        false
    }

    /// Whether a frame can be received without a counter running over.
    pub fn has_room(&self, seq: u64) -> (r: bool)
        requires
            self.wf(),
        ensures
            r == self.can_receive(seq),
    {
        let next: u64 = self.dedup.next_expected();
        let window: usize = self.dedup.window_size();
        let fits = match self.dedup.check(seq) {
            DedupResult::InOrder => window as u64 <= u64::MAX - next,
            DedupResult::OutOfOrder => next <= u64::MAX - 255,
            _ => true,
        };
        self.frames_since_last_ack < u32::MAX && self.credits_to_grant < u32::MAX && fits
    }

    /// What to do with a frame of the given sequence number.
    pub open spec fn action_for(self, seq: u64) -> ReceiveAction {
        match self.dedup@.standing(seq as int) {
            DedupResult::InOrder => ReceiveAction::Deliver,
            DedupResult::AlreadySeen => ReceiveAction::Duplicate,
            DedupResult::OutOfOrder => ReceiveAction::OutOfOrder,
            DedupResult::BeyondWindow => ReceiveAction::BeyondWindow,
        }
    }

    /// Whether `after` is this session after a frame of the given sequence number arrived.
    pub open spec fn taken_in(self, after: Self, seq: u64) -> bool {
        &&& match self.action_for(seq) {
            ReceiveAction::Deliver | ReceiveAction::OutOfOrder => self.dedup@.marked(
                seq as int,
                after.dedup@,
            ),
            _ => after.dedup == self.dedup,
        }
        &&& after == (ReliableSession {
            dedup: after.dedup,
            frames_since_last_ack: (self.frames_since_last_ack + 1) as u32,
            credits_to_grant: (self.credits_to_grant + 1) as u32,
            ..self
        })
    }

    /// A number that has been received is never delivered again, whatever arrives in
    /// between: every frame of a session is delivered at most once.
    pub proof fn lemma_delivered_once(self, after: Self, later: u64, seq: u64)
        requires
            self.wf(),
            self.taken_in(after, later),
            self.dedup@.received(seq as int) || (seq == later && self.action_for(later)
                == ReceiveAction::Deliver),
        ensures
            after.dedup@.received(seq as int),
            after.action_for(seq) == ReceiveAction::Duplicate,
    {
        self.dedup.lemma_wf();
        if self.dedup@.marked(later as int, after.dedup@) {
            self.dedup@.lemma_marked_received(later as int, after.dedup@, seq as int);
        }
    }

    /// A frame is delivered where it has the number that is expected next, known as a
    /// duplicate where it was received before, kept in mind where it is less than 1024
    /// ahead, and else discarded. A frame that is delivered or kept in mind counts as
    /// received from then on, and no other does. What is expected next is the first number
    /// that was not received. Every frame counts towards the next acknowledgement.
    pub proof fn lemma_received(self, after: Self, seq: u64)
        requires
            self.wf(),
            self.taken_in(after, seq),
            self.frames_since_last_ack < u32::MAX,
            self.credits_to_grant < u32::MAX,
        ensures
            ({
                let next = self.dedup@.next;
                let ahead = self.dedup@.ahead;
                let now_next = after.dedup@.next;
                let now_ahead = after.dedup@.ahead;
                &&& self.action_for(seq) == ReceiveAction::Deliver <==> seq == next
                &&& self.action_for(seq) == ReceiveAction::Duplicate <==> seq < next
                    || ahead.contains(seq as int)
                &&& self.action_for(seq) == ReceiveAction::OutOfOrder <==> next < seq < next + 1024
                    && !ahead.contains(seq as int)
                &&& self.action_for(seq) == ReceiveAction::BeyondWindow <==> seq >= next + 1024
                &&& forall|q: int|
                    (q < now_next || #[trigger] now_ahead.contains(q)) <==> (q < next
                        || ahead.contains(q) || (q == seq && seq < next + 1024))
                &&& !now_ahead.contains(now_next)
            }),
            after.frames_since_last_ack == self.frames_since_last_ack + 1,
            after.credits_to_grant == self.credits_to_grant + 1,
            after.next_seq == self.next_seq,
            after.state == self.state,
            after.retransmit_queue == self.retransmit_queue,
            after.available_credits == self.available_credits,
            after.cwnd == self.cwnd,
    {
        self.dedup.lemma_wf();
        let a = self.dedup@;
        let b = after.dedup@;
        if a.marked(seq as int, b) {
            assert forall|q: int|
                (q < b.next || #[trigger] b.ahead.contains(q)) <==> (q < a.next || a.ahead.contains(
                    q,
                ) || (q == seq && seq < a.next + 1024)) by {
                a.lemma_marked_received(seq as int, b, q);
            }
            a.lemma_marked_received(seq as int, b, 0);
        }
    }

    /// Takes note of a received sequence number and says what to do with the frame.
    pub fn receive_frame(&mut self, seq: u64) -> (r: ReceiveAction)
        requires
            old(self).wf(),
            old(self).can_receive(seq),
        ensures
            final(self).wf(),
            r == old(self).action_for(seq),
            old(self).taken_in(*final(self), seq),
    {
        self.frames_since_last_ack = self.frames_since_last_ack + 1;
        self.credits_to_grant = self.credits_to_grant + 1;
        match self.dedup.check(seq) {
            DedupResult::InOrder => {
                proof {
                    self.dedup.lemma_wf();
                    let d = self.dedup@;
                    assert(!d.ahead.contains(d.next + d.window));
                }
                self.dedup.mark_and_advance(seq);
                ReceiveAction::Deliver
            },
            DedupResult::AlreadySeen => ReceiveAction::Duplicate,
            DedupResult::OutOfOrder => {
                self.dedup.mark_and_advance(seq);
                ReceiveAction::OutOfOrder
            },
            DedupResult::BeyondWindow => ReceiveAction::BeyondWindow,
        }
    }

    /// Whether `after` is this session with a frame recorded as executed.
    pub open spec fn recorded(self, after: Self, seq: u64) -> bool {
        let before = self.execution_records@;
        let now_held = after.execution_records@;
        &&& after == (ReliableSession { execution_records: after.execution_records, ..self })
        &&& if exists|i: int| 0 <= i < before.len() && (#[trigger] before[i]).0 == seq {
            exists|i: int|
                {
                    &&& 0 <= i < before.len()
                    &&& (#[trigger] before[i]).0 == seq
                    &&& forall|j: int| 0 <= j < i ==> (#[trigger] before[j]).0 != seq
                    &&& now_held == before.update(i, (seq, true))
                }
        } else if before.len() < 1024 {
            now_held == before.push((seq, true))
        } else {
            now_held == before.skip(1).push((seq, true))
        }
    }

    /// Recording changes the records and nothing else of the session: the record of a frame
    /// that has one stays where it is, and a frame without one gets one behind the others.
    pub proof fn lemma_recorded_in_place(self, after: Self, seq: u64, i: int)
        requires
            self.recorded(after, seq),
            0 <= i < self.execution_records@.len(),
        ensures
            after.retransmit_queue == self.retransmit_queue,
            after.dedup == self.dedup,
            after.state == self.state,
            after.next_seq == self.next_seq,
            self.execution_records@[i].0 == seq ==> after.execution_records@.len()
                == self.execution_records@.len(),
            self.execution_records@[i].0 == seq && (forall|j: int|
                0 <= j < i ==> (#[trigger] self.execution_records@[j]).0 != seq)
                ==> after.execution_records@[i] == (seq, true),
            (forall|j: int|
                0 <= j < self.execution_records@.len() ==> (
                #[trigger] self.execution_records@[j]).0 != seq) ==> after.execution_records@.last()
                == (seq, true) && (self.execution_records@.len() < 1024
                ==> after.execution_records@.len() == self.execution_records@.len() + 1
                && after.execution_records@[i] == self.execution_records@[i]),
    {
        let a = self.execution_records@;
        let b = after.execution_records@;
        if exists|k: int| 0 <= k < a.len() && (#[trigger] a[k]).0 == seq {
            let k = choose|k: int|
                {
                    &&& 0 <= k < a.len()
                    &&& (#[trigger] a[k]).0 == seq
                    &&& forall|j: int| 0 <= j < k ==> (#[trigger] a[j]).0 != seq
                    &&& b == a.update(k, (seq, true))
                };
            assert(b.len() == a.len());
            if a[i].0 == seq && forall|j: int| 0 <= j < i ==> (#[trigger] a[j]).0 != seq {
                assert(k == i);
            }
        }
    }

    /// A frame that was recorded counts as executed; whether another one does, is as before,
    /// unless 1024 newer ones have pushed its record out.
    pub proof fn lemma_recorded(self, after: Self, seq: u64, other: u64)
        requires
            self.recorded(after, seq),
            other != seq,
        ensures
            after.execution_records@.contains((seq, true)),
            after.execution_records@.contains((other, true)) ==> self.execution_records@.contains(
                (other, true),
            ),
            self.execution_records@.len() < 1024 && self.execution_records@.contains((other, true))
                ==> after.execution_records@.contains((other, true)),
    {
        let a = self.execution_records@;
        let b = after.execution_records@;
        if exists|i: int| 0 <= i < a.len() && (#[trigger] a[i]).0 == seq {
            let i = choose|i: int|
                {
                    &&& 0 <= i < a.len()
                    &&& (#[trigger] a[i]).0 == seq
                    &&& forall|j: int| 0 <= j < i ==> (#[trigger] a[j]).0 != seq
                    &&& b == a.update(i, (seq, true))
                };
            assert(b[i] == (seq, true));
            if a.contains((other, true)) {
                let j = choose|j: int| 0 <= j < a.len() && a[j] == (other, true);
                assert(b[j] == (other, true));
            }
            if b.contains((other, true)) {
                let j = choose|j: int| 0 <= j < b.len() && b[j] == (other, true);
                assert(a[j] == (other, true));
            }
        } else {
            assert(b[b.len() - 1] == (seq, true));
            if a.len() < 1024 && a.contains((other, true)) {
                let j = choose|j: int| 0 <= j < a.len() && a[j] == (other, true);
                assert(b[j] == (other, true));
            }
            if b.contains((other, true)) {
                let j = choose|j: int| 0 <= j < b.len() && b[j] == (other, true);
                if a.len() < 1024 {
                    assert(a[j] == (other, true));
                } else {
                    assert(a[j + 1] == (other, true));
                }
            }
        }
    }

    /// Records that a frame has been executed. The records of the last 1024 frames are
    /// kept.
    pub fn mark_executed(&mut self, seq: u64)
        requires
            old(self).wf(),
        ensures
            final(self).wf(),
            final(self).spec_executed(seq),
            old(self).recorded(*final(self), seq),
    {
        let n: usize = self.execution_records.len();
        let ghost before = self.execution_records@;
        let mut i: usize = 0;
        while i < n
            invariant
                i <= n,
                n == self.execution_records@.len(),
                n <= 1024,
                *self == *old(self),
                self.wf(),
                before == self.execution_records@,
                forall|j: int| 0 <= j < i ==> (#[trigger] before[j]).0 != seq,
            decreases n - i,
        {
            if self.execution_records[i].0 == seq {
                assert(before[i as int].0 == seq);
                self.execution_records.remove(i);
                self.execution_records.insert(i, (seq, true));
                proof {
                    assert(self.execution_records@ =~= before.update(i as int, (seq, true)));
                    assert(self.execution_records@[i as int] == (seq, true));
                }
                return;
            }
            i = i + 1;
        }
        self.execution_records.push_back((seq, true));
        if self.execution_records.len() > 1024 {
            self.execution_records.pop_front();
            assert(self.execution_records@ =~= before.skip(1).push((seq, true)));
        }
        proof {
            let last = self.execution_records@.len() - 1;
            assert(self.execution_records@[last] == (seq, true));
        }
    }

    /// Whether a frame has been executed.
    pub fn is_executed(&self, seq: u64) -> (r: bool)
        ensures
            r == self.spec_executed(seq),
    {
        let n: usize = self.execution_records.len();
        let mut i: usize = 0;
        while i < n
            invariant
                i <= n,
                n == self.execution_records@.len(),
                forall|j: int|
                    0 <= j < i ==> #[trigger] self.execution_records@[j] != (seq, true),
            decreases n - i,
        {
            if self.execution_records[i].0 == seq && self.execution_records[i].1 {
                assert(self.execution_records@[i as int] == (seq, true));
                return true;
            }
            i = i + 1;
        }
        false
    }

    /// Adds credits, up to the largest number.
    pub fn add_credits(&mut self, credits: u32)
        ensures
            *final(self) == (ReliableSession {
                available_credits: after_credits(old(self).available_credits, credits),
                ..*old(self)
            }),
    {
        self.available_credits = self.available_credits.saturating_add(credits);
    }

    /// Takes one credit for sending; refuses where there is none.
    pub fn consume_credit(&mut self) -> (r: Result<(), UbError>)
        ensures
            match r {
                Ok(_) => old(self).available_credits > 0 && *final(self) == (ReliableSession {
                    available_credits: (old(self).available_credits - 1) as u32,
                    ..*old(self)
                }),
                Err(e) => old(self).available_credits == 0 && *final(self) == *old(self) && e
                    == UbError::NoResources,
            },
    {
        if self.available_credits == 0 {
            return Err(UbError::NoResources);
        }
        self.available_credits = self.available_credits - 1;
        Ok(())
    }

    /// How many frames the congestion window leaves room for. The number of outstanding
    /// frames counts modulo 2^32.
    pub fn send_available(&self) -> (r: u32)
        ensures
            r == ({
                let outstanding = self.retransmit_queue@.len() % 0x1_0000_0000;
                if self.cwnd >= outstanding {
                    self.cwnd - outstanding
                } else {
                    0
                }
            }),
    {
        let outstanding: u32 = (self.retransmit_queue.len() as u64 % 0x1_0000_0000) as u32;
        self.cwnd.saturating_sub(outstanding)
    }

    /// Lets the congestion window grow: it doubles below the threshold and grows by one
    /// from there on, up to the largest number.
    pub fn on_new_ack(&mut self)
        ensures
            *final(self) == (ReliableSession {
                cwnd: grown(old(self).cwnd, old(self).ssthresh),
                dup_ack_count: 0,
                ..*old(self)
            }),
    {
        if self.cwnd < self.ssthresh {
            self.cwnd = if self.cwnd > u32::MAX / 2 {
                u32::MAX
            } else {
                self.cwnd * 2
            };
        } else {
            self.cwnd = self.cwnd.saturating_add(1);
        }
        self.dup_ack_count = 0;
    }

    /// Reacts to a loss: half the window becomes the threshold, and the window one frame.
    pub fn on_loss(&mut self)
        ensures
            *final(self) == (ReliableSession {
                ssthresh: halved(old(self).cwnd),
                cwnd: 1,
                dup_ack_count: 0,
                ..*old(self)
            }),
    {
        self.ssthresh = self.cwnd / 2;
        if self.ssthresh < 2 {
            self.ssthresh = 2;
        }
        self.cwnd = 1;
        self.dup_ack_count = 0;
    }

    /// Whether an acknowledgement can be counted without a number running over.
    pub open spec fn can_count(self, ack: AckView) -> bool {
        ack.ack_seq < u64::MAX || self.advances(ack) || self.dup_ack_count < 2
    }

    /// Whether `after` is this session with an acknowledgement counted, and `missing` the
    /// frame that it names.
    pub open spec fn counted(self, after: Self, ack: AckView, missing: Option<u64>) -> bool {
        if self.advances(ack) {
            missing is None && after == (ReliableSession {
                last_ack_seq: ack.ack_seq,
                dup_ack_count: 0,
                ..self
            })
        } else if self.dup_ack_count < 2 {
            missing is None && after == (ReliableSession {
                dup_ack_count: (self.dup_ack_count + 1) as u32,
                ..self
            })
        } else {
            missing == Some((ack.ack_seq + 1) as u64) && after == (ReliableSession {
                dup_ack_count: 0,
                ..self
            })
        }
    }

    /// Counts acknowledgements that do not advance. The third in a row names the first
    /// frame that is missing. To `process_ack` an acknowledgement that was counted here does
    /// not advance any more, and the other way round: `process_ack_with_fast_retransmit`
    /// does both.
    pub fn process_ack_for_fast_retransmit(&mut self, ack: &AckPayload) -> (r: Option<u64>)
        requires
            old(self).wf(),
            old(self).can_count(ack@),
        ensures
            final(self).wf(),
            old(self).counted(*final(self), ack@, r),
    {
        if ack.ack_seq > self.last_ack_seq {
            self.last_ack_seq = ack.ack_seq;
            self.dup_ack_count = 0;
            None
        } else {
            self.dup_ack_count = self.dup_ack_count + 1;
            if self.dup_ack_count >= 3 {
                self.dup_ack_count = 0;
                Some(ack.ack_seq + 1)
            } else {
                None
            }
        }
    }

    /// Of three acknowledgements in a row that acknowledge nothing new, the third names the
    /// number after the acknowledged one, and the count starts anew. One that acknowledges
    /// more starts it anew as well.
    pub proof fn lemma_third_names_missing(
        s0: Self,
        s1: Self,
        s2: Self,
        s3: Self,
        ack: AckView,
        m1: Option<u64>,
        m2: Option<u64>,
        m3: Option<u64>,
    )
        requires
            s0.dup_ack_count == 0,
            ack.ack_seq < u64::MAX,
            s0.counted(s1, ack, m1),
            s1.counted(s2, ack, m2),
            s2.counted(s3, ack, m3),
        ensures
            m1 is None && m2 is None,
            ack.ack_seq <= s0.last_ack_seq ==> m3 == Some((ack.ack_seq + 1) as u64)
                && s3.dup_ack_count == 0,
            ack.ack_seq > s0.last_ack_seq ==> m3 is None && s3.last_ack_seq == ack.ack_seq
                && s1.dup_ack_count == 0,
            s3.retransmit_queue == s0.retransmit_queue,
            s3.available_credits == s0.available_credits,
            s3.cwnd == s0.cwnd,
    {
    }

    /// Whether `after` is this session, ended.
    pub open spec fn killed(self, after: Self) -> bool {
        &&& after.retransmit_queue@.len() == 0
        &&& after == (ReliableSession {
            state: SessionState::Dead,
            retransmit_queue: after.retransmit_queue,
            ..self
        })
    }

    /// Ends the session and returns every entry that was not settled.
    pub fn kill(&mut self) -> (r: Vec<RetransmitEntry>)
        requires
            old(self).wf(),
        ensures
            final(self).wf(),
            r@ == old(self).retransmit_queue@,
            old(self).killed(*final(self)),
    {
        self.state = SessionState::Dead;
        let mut queue: VecDeque<RetransmitEntry> = VecDeque::new();
        core::mem::swap(&mut queue, &mut self.retransmit_queue);
        let ghost all = queue@;
        let mut out: Vec<RetransmitEntry> = Vec::new();
        while queue.len() > 0
            invariant
                out@ + queue@ == all,
            decreases queue@.len(),
        {
            let ghost left = queue@;
            let ghost had = out@;
            match queue.pop_front() {
                Some(e) => {
                    out.push(e);
                    assert(out@ + queue@ =~= had + left);
                },
                None => {},
            }
        }
        assert(out@ =~= all);
        out
    }

    /// This session after an acknowledgement was sent.
    pub open spec fn after_ack(self) -> Self {
        ReliableSession { credits_to_grant: 0, frames_since_last_ack: 0, ..self }
    }

    /// Whether `ack` tells what has been received and grants all credits; after a gap with
    /// a bit for each of the 256 numbers from the first missing one on.
    pub open spec fn acknowledges(self, has_gap: bool, ack: AckView) -> bool {
        &&& ack.ack_seq == (if self.dedup@.next == 0 {
            0
        } else {
            self.dedup@.next - 1
        })
        &&& ack.credit_grant == self.credits_to_grant
        &&& ack.reserved == 0
        &&& ack.sack is Some == has_gap
        &&& ack.sack matches Some(b) ==> b.len() == 32 && forall|i: int|
            0 <= i < 256 ==> #[trigger] sack_bit(b, i) == self.dedup@.received(
                ack.ack_seq + 1 + i,
            )
    }

    /// An acknowledgement names the last number before the first missing one and grants every
    /// credit that was not granted yet. After a gap it carries 32 bytes, of which bit `i`
    /// says whether the number `i` places behind the first missing one has arrived.
    pub proof fn lemma_ack_tells(self, has_gap: bool, ack: AckView, i: int)
        requires
            self.acknowledges(has_gap, ack),
            self.dedup@.next > 0,
            0 <= i < 256,
        ensures
            ack.ack_seq + 1 == self.dedup@.next,
            ack.credit_grant == self.credits_to_grant,
            ack.reserved == 0,
            ack.sack is Some <==> has_gap,
            ack.sack matches Some(b) ==> b.len() == 32 && ((b[i / 8] >> ((i % 8) as u8)) & 1 == 1
                <==> self.dedup@.ahead.contains(self.dedup@.next + i)),
            self.after_ack().credits_to_grant == 0,
            self.after_ack().frames_since_last_ack == 0,
            self.after_ack().dedup == self.dedup,
            self.after_ack().retransmit_queue == self.retransmit_queue,
    {
        if let Some(b) = ack.sack {
            assert(sack_bit(b, i) == self.dedup@.received(ack.ack_seq + 1 + i));
        }
    }

    /// An entry stays queued under every acknowledgement of the peer until the peer has
    /// received its frame. A frame that arrives after a gap counts as received though it is
    /// not delivered.
    pub proof fn lemma_kept_until_received(
        self,
        after: Self,
        peer: Self,
        has_gap: bool,
        ack: AckView,
        i: int,
    )
        requires
            peer.dedup@.next > 0,
            peer.acknowledges(has_gap, ack),
            self.acked(after, ack),
            0 <= i < self.retransmit_queue@.len(),
            !peer.dedup@.received(self.retransmit_queue@[i].seq as int),
        ensures
            after.retransmit_queue@.contains(self.retransmit_queue@[i]),
    {
        self.retransmit_queue@.lemma_filter_contains(unsettled(ack.ack_seq), i);
    }

    /// A frame that asks for no response leaves the queue once an acknowledgement of the
    /// peer covers it, and with it the last reason to send it again.
    pub proof fn lemma_gone_once_covered(
        self,
        after: Self,
        peer: Self,
        has_gap: bool,
        ack: AckView,
        e: RetransmitEntry,
    )
        requires
            peer.acknowledges(has_gap, ack),
            self.acked(after, ack),
            e.is_fire_and_forget,
            e.seq < peer.dedup@.next,
        ensures
            !after.retransmit_queue@.contains(e),
    {
        if after.retransmit_queue@.contains(e) {
            let k = after.retransmit_queue@.index_of(e);
            self.retransmit_queue@.lemma_filter_pred(unsettled(ack.ack_seq), k);
        }
    }

    /// The acknowledgement for what has been received, with all credits to grant. After a
    /// gap it says which of the 256 numbers from the first missing one on have arrived.
    pub fn build_ack_payload(&mut self, has_gap: bool) -> (r: AckPayload)
        requires
            old(self).wf(),
            has_gap ==> old(self).dedup@.next + 255 <= u64::MAX,
        ensures
            final(self).wf(),
            *final(self) == old(self).after_ack(),
            old(self).acknowledges(has_gap, r@),
    {
        let ack_seq: u64 = self.dedup.next_expected().saturating_sub(1);
        let credit_grant: u32 = self.credits_to_grant;
        self.credits_to_grant = 0;
        self.frames_since_last_ack = 0;
        if !has_gap {
            return AckPayload { ack_seq, credit_grant, reserved: 0, sack_bitmap: None };
        }
        let mut bitmap: [u8; 32] = [0;32];
        let base: u64 = ack_seq + 1;
        let mut i: u64 = 0;
        proof {
            assert forall|j: int| 0 <= j < 256 implies !#[trigger] sack_bit(bitmap@, j) by {
                lemma_sack_bit(0, 0, (j % 8) as u8);
            }
        }
        while i < 256
            invariant
                i <= 256,
                self.dedup == old(self).dedup,
                self.dedup.wf(),
                base + 255 <= u64::MAX,
                forall|j: int|
                    0 <= j < 256 ==> #[trigger] sack_bit(bitmap@, j) == (j < i
                        && self.dedup@.received(base + j)),
            decreases 256 - i,
        {
            let seq: u64 = base + i;
            if self.dedup.is_seen(seq) {
                let word: usize = (i / 8) as usize;
                let b: u8 = (i % 8) as u8;
                let ghost before = bitmap@;
                let w: u8 = bitmap[word];
                bitmap[word] = w | (1u8 << b);
                proof {
                    assert forall|j: int| 0 <= j < 256 implies #[trigger] sack_bit(bitmap@, j) == (
                    sack_bit(before, j) || j == i) by {
                        if j / 8 == word {
                            lemma_sack_bit(w, b, (j % 8) as u8);
                        }
                    }
                }
            }
            i = i + 1;
        }
        AckPayload { ack_seq, credit_grant, reserved: 0, sack_bitmap: Some(bitmap) }
    }

    /// Whether an entry is due at `now` that has no retries left.
    pub open spec fn exhausted(self, now: u64) -> bool {
        exists|i: int|
            0 <= i < self.retransmit_queue@.len() && now >= (
            #[trigger] self.retransmit_queue@[i]).rto_deadline
                && self.retransmit_queue@[i].retry_count >= self.max_retries
    }

    /// Whether the entries that are due at `now` are sent again.
    pub open spec fn resends(self, now: u64) -> bool {
        self.state == SessionState::Active && !self.exhausted(now)
    }

    /// The sequence numbers of the entries that are sent again at `now`.
    pub open spec fn resent(self, now: u64) -> Seq<u64> {
        if self.resends(now) {
            due_seqs(self.retransmit_queue@, now)
        } else {
            Seq::empty()
        }
    }

    /// An entry is sent again where its deadline has passed.
    proof fn lemma_resent(self, now: u64, i: int)
        requires
            self.wf(),
            self.resends(now),
            0 <= i < self.retransmit_queue@.len(),
        ensures
            self.resent(now).contains(self.retransmit_queue@[i].seq) <==> now
                >= self.retransmit_queue@[i].rto_deadline,
    {
        let q = self.retransmit_queue@;
        let s = due_seqs(q, now);
        if s.contains(q[i].seq) {
            let k = choose|k: int| 0 <= k < s.len() && s[k] == q[i].seq;
            let j = lemma_due_is(q, now, k);
            assert(j == i);
        }
        if now >= q[i].rto_deadline {
            let k = lemma_is_due(q, now, i);
            assert(s.contains(q[i].seq));
        }
    }

    /// Whether `after` is this session after the timeouts at `now`.
    pub open spec fn timed(self, after: Self, now: u64) -> bool {
        if self.state != SessionState::Active {
            after == self
        } else if self.exhausted(now) {
            self.killed(after)
        } else {
            &&& after.retransmit_queue@ == self.retransmit_queue@.map_values(
                |e: RetransmitEntry|
                    if now >= e.rto_deadline {
                        retried(e, now, self.rto_base_ms)
                    } else {
                        e
                    },
            )
            &&& after == (if self.resent(now).len() > 0 {
                ReliableSession {
                    retransmit_queue: after.retransmit_queue,
                    ssthresh: halved(self.cwnd),
                    cwnd: 1,
                    dup_ack_count: 0,
                    ..self
                }
            } else {
                ReliableSession { retransmit_queue: after.retransmit_queue, ..self }
            })
        }
    }

    /// What runs out at `now` in an active session. Where a frame is due that was sent again
    /// as often as it may be, the session ends, and nothing is sent. Else every frame that is
    /// due is sent again, once, and counted: its next deadline lies twice as far ahead as the
    /// last wait, up to 1024 times the base. A frame that is not due is left alone, and
    /// nothing of any frame changes but its count and its deadline. A loss makes the window
    /// one frame, and half of what it was the threshold.
    pub proof fn lemma_timeouts(self, after: Self, now: u64, i: int)
        requires
            self.wf(),
            self.timed(after, now),
            self.state == SessionState::Active,
            now + self.rto_base_ms * 1024 <= u64::MAX,
            0 <= i < self.retransmit_queue@.len(),
        ensures
            ({
                let q = self.retransmit_queue@;
                let p = after.retransmit_queue@;
                let e = q[i];
                let given_up = exists|j: int|
                    0 <= j < q.len() && now >= (#[trigger] q[j]).rto_deadline && q[j].retry_count
                        >= self.max_retries;
                if given_up {
                    &&& after.state == SessionState::Dead
                    &&& p.len() == 0
                    &&& self.resent(now).len() == 0
                } else {
                    &&& after.state == SessionState::Active
                    &&& p.len() == q.len()
                    &&& p[i].seq == e.seq
                    &&& p[i].frame == e.frame
                    &&& p[i].first_sent_at == e.first_sent_at
                    &&& p[i].is_fire_and_forget == e.is_fire_and_forget
                    &&& p[i].opaque == e.opaque
                    &&& self.resent(now).contains(e.seq) <==> now >= e.rto_deadline
                    &&& now < e.rto_deadline ==> p[i] == e
                    &&& now >= e.rto_deadline ==> {
                        &&& p[i].retry_count == e.retry_count + 1
                        &&& e.retry_count < 9 ==> p[i].rto_deadline == now + self.rto_base_ms
                            * pow2((e.retry_count + 1) as nat)
                        &&& e.retry_count >= 9 ==> p[i].rto_deadline == now + self.rto_base_ms
                            * 1024
                        &&& after.cwnd == 1
                        &&& after.ssthresh == (if self.cwnd / 2 < 2 {
                            2
                        } else {
                            self.cwnd / 2
                        })
                        &&& after.dup_ack_count == 0
                    }
                    &&& self.resent(now).len() == 0 ==> after.cwnd == self.cwnd && after.ssthresh
                        == self.ssthresh
                    &&& after.next_seq == self.next_seq
                    &&& after.available_credits == self.available_credits
                    &&& after.dedup == self.dedup
                }
            }),
    {
        let q = self.retransmit_queue@;
        let e = q[i];
        if self.resends(now) {
            self.lemma_resent(now, i);
            if now >= e.rto_deadline {
                assert(self.resent(now).len() > 0);
                assert(e.retry_count < self.max_retries);
                lemma_retry_wait(e, now, self.rto_base_ms);
            }
        }
    }

    /// A session that has ended sends nothing again and stays as it is. An acknowledgement is
    /// wanted once eight frames have come since the last one, or eight credits are owed.
    pub proof fn lemma_ended(self, after: Self, killed: Self, now: u64)
        requires
            self.timed(after, now),
            self.killed(killed),
        ensures
            self.state == SessionState::Dead ==> self.resent(now).len() == 0 && after == self,
            killed.state == SessionState::Dead,
            killed.retransmit_queue@.len() == 0,
            killed.next_seq == self.next_seq,
            killed.dedup == self.dedup,
            self.wants_ack() <==> self.frames_since_last_ack >= 8 || self.credits_to_grant >= 8,
    {
    }

    /// Finds the entries that are due at `now`, sets their next deadlines and returns their
    /// sequence numbers. Where one of them has no retries left, the session ends and
    /// nothing is sent again.
    pub fn check_rto(&mut self, now: u64) -> (r: Vec<u64>)
        requires
            old(self).wf(),
            now + old(self).rto_base_ms * 1024 <= u64::MAX,
        ensures
            final(self).wf(),
            r@ == old(self).resent(now),
            old(self).timed(*final(self), now),
            old(self).state == SessionState::Active && !(exists|j: int|
                0 <= j < old(self).retransmit_queue@.len() && now >= (
                #[trigger] old(self).retransmit_queue@[j]).rto_deadline
                    && old(self).retransmit_queue@[j].retry_count >= old(self).max_retries)
                ==> forall|i: int|
                0 <= i < old(self).retransmit_queue@.len() ==> (r@.contains(
                    (#[trigger] old(self).retransmit_queue@[i]).seq,
                ) <==> now >= old(self).retransmit_queue@[i].rto_deadline),
    {
        proof {
            assert forall|i: int| 0 <= i < self.retransmit_queue@.len() && self.resends(now) implies (
            self.resent(now).contains((#[trigger] self.retransmit_queue@[i]).seq) <==> now
                >= self.retransmit_queue@[i].rto_deadline) by {
                self.lemma_resent(now, i);
            }
        }
        if self.state != SessionState::Active {
            return Vec::new();
        }
        let ghost all = self.retransmit_queue@;
        let n: usize = self.retransmit_queue.len();
        let mut i: usize = 0;
        while i < n
            invariant
                i <= n,
                n == all.len(),
                all == self.retransmit_queue@,
                *self == *old(self),
                self.wf(),
                self.state == SessionState::Active,
                forall|j: int|
                    0 <= j < i ==> !(now >= (#[trigger] all[j]).rto_deadline
                        && all[j].retry_count >= self.max_retries),
            decreases n - i,
        {
            let spent = {
                let e = &self.retransmit_queue[i];
                now >= e.rto_deadline && e.retry_count >= self.max_retries
            };
            if spent {
                assert(now >= all[i as int].rto_deadline);
                self.kill();
                return Vec::new();
            }
            i = i + 1;
        }
        let base: u64 = self.rto_base_ms;
        let ghost again = |e: RetransmitEntry|
            if now >= e.rto_deadline {
                retried(e, now, base)
            } else {
                e
            };
        let mut timeout_seqs: Vec<u64> = Vec::new();
        let mut queue: VecDeque<RetransmitEntry> = VecDeque::new();
        core::mem::swap(&mut queue, &mut self.retransmit_queue);
        let mut next: VecDeque<RetransmitEntry> = VecDeque::new();
        let ghost mut k: int = 0;
        proof {
            assert(queue@ =~= all.skip(0));
            assert(all.take(0) =~= Seq::empty());
            assert(next@ =~= all.take(0).map_values(again));
        }
        while queue.len() > 0
            invariant
                0 <= k <= all.len(),
                queue@ == all.skip(k),
                next@ == all.take(k).map_values(again),
                timeout_seqs@ == due_seqs(all.take(k), now),
                again == (|e: RetransmitEntry|
                    if now >= e.rto_deadline {
                        retried(e, now, base)
                    } else {
                        e
                    }),
                now + base * 1024 <= u64::MAX,
                forall|j: int|
                    0 <= j < all.len() ==> !(now >= (#[trigger] all[j]).rto_deadline
                        && all[j].retry_count >= self.max_retries),
            decreases queue@.len(),
        {
            proof {
                assert(all.take(k + 1).drop_last() =~= all.take(k));
            }
            match queue.pop_front() {
                Some(e) => {
                    assert(e == all[k]);
                    let mut entry = e;
                    if now >= entry.rto_deadline {
                        let count: u32 = entry.retry_count + 1;
                        entry.retry_count = count;
                        entry.rto_deadline = now + backoff(base, count, now);
                        timeout_seqs.push(entry.seq);
                    }
                    next.push_back(entry);
                    assert(entry == again(all[k]));
                },
                None => {},
            }
            proof {
                k = k + 1;
                assert(queue@ =~= all.skip(k));
                assert(next@ =~= all.take(k).map_values(again));
            }
        }
        proof {
            assert(all.take(k) =~= all);
        }
        self.retransmit_queue = next;
        if timeout_seqs.len() > 0 {
            self.on_loss();
        }
        timeout_seqs
    }

    /// Lets the timeouts at `now` take effect and returns the frames to send again.
    pub fn resend_due(&mut self, now: u64) -> (r: Vec<Vec<u8>>)
        requires
            old(self).wf(),
            now + old(self).rto_base_ms * 1024 <= u64::MAX,
        ensures
            final(self).wf(),
            old(self).timed(*final(self), now),
            r@.map_values(|f: Vec<u8>| f@) == (if old(self).resends(now) {
                due_frames(old(self).retransmit_queue@, now)
            } else {
                Seq::empty()
            }),
            old(self).state == SessionState::Active && !(exists|j: int|
                0 <= j < old(self).retransmit_queue@.len() && now >= (
                #[trigger] old(self).retransmit_queue@[j]).rto_deadline
                    && old(self).retransmit_queue@[j].retry_count >= old(self).max_retries)
                ==> forall|i: int|
                0 <= i < old(self).retransmit_queue@.len() && now >= (
                #[trigger] old(self).retransmit_queue@[i]).rto_deadline ==> exists|k: int|
                    0 <= k < r@.len() && (#[trigger] r@[k])@
                        == old(self).retransmit_queue@[i].frame@,
    {
        let ghost q = self.retransmit_queue@;
        let seqs = self.check_rto(now);
        let mut out: Vec<Vec<u8>> = Vec::new();
        let mut i: usize = 0;
        proof {
            lemma_due(q, now);
            assert(out@.map_values(|f: Vec<u8>| f@) =~= due_frames(q, now).take(0));
        }
        while i < seqs.len()
            invariant
                i <= seqs@.len(),
                self.wf(),
                old(self).timed(*self, now),
                q == old(self).retransmit_queue@,
                seqs@ == old(self).resent(now),
                seqs@.len() > 0 ==> old(self).resends(now),
                due_seqs(q, now).len() == due_frames(q, now).len(),
                out@.map_values(|f: Vec<u8>| f@) == due_frames(q, now).take(i as int),
            decreases seqs@.len() - i,
        {
            let ghost had = out@;
            let ghost i0 = i as int;
            proof {
                lemma_due(q, now);
            }
            let ghost p = choose|p: int|
                0 <= p < q.len() && (#[trigger] q[p]).seq == due_seqs(q, now)[i0] && q[p].frame@
                    == due_frames(q, now)[i0];
            proof {
                assert(self.retransmit_queue@[p].seq == seqs@[i0]);
                assert(self.retransmit_queue@[p].frame == q[p].frame);
            }
            match self.get_retransmit_entry(seqs[i]) {
                Some(e) => {
                    proof {
                        let j = choose|j: int|
                            0 <= j < self.retransmit_queue@.len() && *e
                                == #[trigger] self.retransmit_queue@[j];
                        assert(j == p);
                    }
                    out.push(slice_to_vec(e.frame.as_slice()));
                },
                None => {},
            }
            proof {
                let before = had.map_values(|f: Vec<u8>| f@);
                assert(out@.map_values(|f: Vec<u8>| f@) =~= before.push(due_frames(q, now)[i0]));
                assert(out@.map_values(|f: Vec<u8>| f@) =~= due_frames(q, now).take(i0 + 1));
            }
            i = i + 1;
        }
        proof {
            if old(self).resends(now) {
                assert(due_frames(q, now).take(i as int) =~= due_frames(q, now));
                let views = out@.map_values(|f: Vec<u8>| f@);
                assert forall|k: int| 0 <= k < out@.len() implies (#[trigger] out@[k])@
                    == due_frames(q, now)[k] by {
                    assert(views[k] == out@[k]@);
                }
                lemma_frames_of_due(q, now, out@);
            } else {
                assert(out@.map_values(|f: Vec<u8>| f@) =~= Seq::empty());
            }
        }
        out
    }

    /// The queued entry with the given sequence number.
    pub fn get_retransmit_entry(&self, seq: u64) -> (r: Option<&RetransmitEntry>)
        ensures
            match r {
                Some(e) => exists|i: int|
                    0 <= i < self.retransmit_queue@.len() && *e == #[trigger] self.retransmit_queue@[i]
                        && e.seq == seq && forall|j: int|
                        0 <= j < i ==> (#[trigger] self.retransmit_queue@[j]).seq != seq,
                None => forall|j: int|
                    0 <= j < self.retransmit_queue@.len() ==> (
                    #[trigger] self.retransmit_queue@[j]).seq != seq,
            },
    {
        let n: usize = self.retransmit_queue.len();
        let mut i: usize = 0;
        while i < n
            invariant
                i <= n,
                n == self.retransmit_queue@.len(),
                forall|j: int|
                    0 <= j < i ==> (#[trigger] self.retransmit_queue@[j]).seq != seq,
            decreases n - i,
        {
            let e = &self.retransmit_queue[i];
            if e.seq == seq {
                return Some(e);
            }
            i = i + 1;
        }
        None
    }

    /// How many entries wait.
    pub fn pending_count(&self) -> (r: usize)
        ensures
            r == self.retransmit_queue@.len(),
    {
        self.retransmit_queue.len()
    }

    /// Whether enough frames or credits have come together for an acknowledgement.
    pub open spec fn wants_ack(&self) -> bool {
        self.frames_since_last_ack >= 8 || self.credits_to_grant >= 8
    }

    pub fn should_send_ack(&self) -> (r: bool)
        ensures
            r == self.wants_ack(),
    {
        self.frames_since_last_ack >= 8 || self.credits_to_grant >= 8
    }
}

/// The sum of credits, up to the largest number.
pub open spec fn after_credits(available: u32, granted: u32) -> u32 {
    if available + granted > u32::MAX {
        u32::MAX
    } else {
        (available + granted) as u32
    }
}

/// The congestion window after a new acknowledgement.
pub open spec fn grown(cwnd: u32, ssthresh: u32) -> u32 {
    if cwnd < ssthresh {
        if cwnd * 2 > u32::MAX {
            u32::MAX
        } else {
            (cwnd * 2) as u32
        }
    } else if cwnd == u32::MAX {
        cwnd
    } else {
        (cwnd + 1) as u32
    }
}

/// The slow-start threshold after a loss.
pub open spec fn halved(cwnd: u32) -> u32 {
    if cwnd / 2 < 2 {
        2
    } else {
        (cwnd / 2) as u32
    }
}

fn clamp(ms: u64) -> (r: u64)
    ensures
        r == clamp_rto(ms),
{
    if ms < 200 {
        200
    } else if ms > 60000 {
        60000
    } else {
        ms
    }
}

fn backoff(base: u64, count: u32, now: u64) -> (r: u64)
    requires
        now + base * 1024 <= u64::MAX,
    ensures
        r == base * pow2(if count < 10 {
            count as nat
        } else {
            10
        }),
        now + r <= u64::MAX,
{
    let k: u64 = if count < 10 {
        count as u64
    } else {
        10
    };
    proof {
        vstd::arithmetic::power2::lemma2_to64();
        if k < 10 {
            vstd::arithmetic::power2::lemma_pow2_strictly_increases(k as nat, 10);
        }
        let p = pow2(k as nat);
        assert(p <= 1024);
        vstd::arithmetic::power2::lemma_pow2_pos(k as nat);
        vstd::bits::lemma_u64_shl_is_mul(1, k);
        assert(base * p <= base * 1024) by (nonlinear_arith)
            requires
                p <= 1024,
        ;
    }
    base * (1u64 << k)
}

/// Writes sequence number and acknowledgement request into a frame.
fn stamp(frame: &mut Vec<u8>, seq: u64)
    ensures
        final(frame)@ == stamped(old(frame)@, seq),
{
    let ghost first = frame@;
    if frame.len() >= 24 {
        let mut digits: Vec<u8> = Vec::new();
        put_u64(&mut digits, seq);
        proof {
            lemma_be_bytes_len(seq as nat, 8);
            assert(digits@ =~= be_bytes(seq as nat, 8));
        }
        let mut i: usize = 0;
        while i < 8
            invariant
                i <= 8,
                digits@ == be_bytes(seq as nat, 8),
                digits@.len() == 8,
                frame@.len() == first.len(),
                frame@.len() >= 24,
                forall|j: int|
                    0 <= j < frame@.len() ==> #[trigger] frame@[j] == (if 16 <= j < 16 + i {
                        digits@[j - 16]
                    } else {
                        first[j]
                    }),
            decreases 8 - i,
        {
            frame.set(16 + i, digits[i]);
            i = i + 1;
        }
        assert(frame@ =~= first.take(16) + be_bytes(seq as nat, 8) + first.skip(24));
    }
    if frame.len() >= 8 {
        let b: u8 = frame[7];
        frame.set(7, b | 1);
    }
}

} // verus!
