//! Jettys: connectionless send and receive queues with their completions.
use crate::addr::UbAddr;
use crate::config::JettyConfig;
use crate::error::{UbError, UB_ERR_FLUSHED};
use crate::table::Table;
use crate::types::{Cqe, JettyAddr, JettyHandle, Verb, WrId};
use std::collections::VecDeque;
use vstd::prelude::*;

verus! {

/// A receive buffer that waits for a message.
#[derive(Debug)]
pub struct RecvBuffer {
    pub buf: Vec<u8>,
    pub wr_id: WrId,
}

/// A send that waits to be performed.
#[derive(Debug)]
pub struct WorkRequest {
    pub wr_id: WrId,
    pub dst_jetty: JettyAddr,
    pub data: Vec<u8>,
    pub imm: Option<u64>,
    pub verb: Verb,
    /// Target address of a write with immediate value.
    pub ub_addr: Option<UbAddr>,
    /// Remote region of a write with immediate value.
    pub mr_handle: Option<u32>,
}

/// What a jetty holds.
#[verifier::ext_equal]
pub struct JettyView {
    pub handle: JettyHandle,
    pub node_id: u16,
    /// Sends that wait.
    pub jfs: Seq<WorkRequest>,
    /// Receive buffers that wait.
    pub jfr: Seq<RecvBuffer>,
    /// Completions that wait.
    pub jfc: Seq<Cqe>,
    pub config: JettyConfig,
    pub closed: bool,
}

/// The completion of a request that was never performed.
pub open spec fn flushed(wr_id: WrId, verb: Verb, jetty_id: u32) -> Cqe {
    Cqe { wr_id, status: UB_ERR_FLUSHED, imm: None, byte_len: 0, jetty_id, verb }
}

impl JettyView {
    /// Whether there is room for a send, and for what it completes with.
    pub open spec fn takes_sends(self) -> bool {
        self.jfc.len() < self.config.jfc_high_watermark && self.jfs.len() < self.config.jfs_depth
    }

    /// The jetty after it was closed: every waiting send, then every waiting receive
    /// buffer, completes as flushed.
    pub open spec fn after_close(self) -> JettyView {
        if self.closed {
            self
        } else {
            JettyView {
                jfs: Seq::empty(),
                jfr: Seq::empty(),
                jfc: self.jfc + self.jfs.map_values(
                    |w: WorkRequest| flushed(w.wr_id, w.verb, self.handle.0),
                ) + self.jfr.map_values(|b: RecvBuffer| flushed(b.wr_id, Verb::Send, self.handle.0)),
                closed: true,
                ..self
            }
        }
    }

    /// Whether the queues keep to their depths. Closing may fill the completion queue
    /// beyond its own.
    pub open spec fn within_depths(self) -> bool {
        &&& self.jfs.len() <= self.config.jfs_depth
        &&& self.jfr.len() <= self.config.jfr_depth
        &&& !self.closed ==> self.jfc.len() <= self.config.jfc_depth
    }

    /// Closing loses nothing. The completions that waited come first; then every waiting
    /// send and every waiting receive buffer has one completion, in the order in which they
    /// were posted. Closing again changes nothing.
    pub proof fn lemma_close_completes_all(self)
        requires
            !self.closed,
        ensures
            ({
                let done = self.after_close().jfc;
                let n = self.jfc.len();
                let m = self.jfs.len();
                &&& done.len() == n + m + self.jfr.len()
                &&& forall|i: int| 0 <= i < n ==> #[trigger] done[i] == self.jfc[i]
                &&& forall|i: int|
                    0 <= i < m ==> done[n + i] == flushed(
                        (#[trigger] self.jfs[i]).wr_id,
                        self.jfs[i].verb,
                        self.handle.0,
                    )
                &&& forall|i: int|
                    0 <= i < self.jfr.len() ==> done[n + m + i] == flushed(
                        (#[trigger] self.jfr[i]).wr_id,
                        Verb::Send,
                        self.handle.0,
                    )
            }),
            self.after_close().closed,
            self.after_close().after_close() == self.after_close(),
    {
    }
}

/// What was never performed completes under its own number, for its own jetty, as flushed
/// and with nothing transferred.
pub proof fn lemma_flushed(wr_id: WrId, verb: Verb, jetty_id: u32)
    ensures
        flushed(wr_id, verb, jetty_id).wr_id == wr_id,
        flushed(wr_id, verb, jetty_id).verb == verb,
        flushed(wr_id, verb, jetty_id).jetty_id == jetty_id,
        flushed(wr_id, verb, jetty_id).status == 8,
        flushed(wr_id, verb, jetty_id).byte_len == 0,
        flushed(wr_id, verb, jetty_id).imm is None,
{
}

impl JettyView {
    /// A send is taken exactly while fewer sends wait than the depth of their queue, and
    /// fewer completions than the mark.
    pub proof fn lemma_takes_sends(self)
        ensures
            self.takes_sends() <==> self.jfs.len() < self.config.jfs_depth && self.jfc.len()
                < self.config.jfc_high_watermark,
            self.within_depths() ==> self.jfs.len() <= self.config.jfs_depth && self.jfr.len()
                <= self.config.jfr_depth && (!self.closed ==> self.jfc.len()
                <= self.config.jfc_depth),
            !self.closed ==> self.after_close().jfs.len() == 0 && self.after_close().jfr.len() == 0,
            self.closed ==> self.after_close() == self,
    {
    }
}

/// A send queue, a receive queue and a completion queue.
pub struct Jetty {
    pub handle: JettyHandle,
    pub node_id: u16,
    pub jfs: VecDeque<WorkRequest>,
    pub jfr: VecDeque<RecvBuffer>,
    pub jfc: VecDeque<Cqe>,
    pub jfs_depth: u32,
    pub jfr_depth: u32,
    pub jfc_depth: u32,
    pub jfc_high_watermark: u32,
    pub closed: bool,
}

impl View for Jetty {
    type V = JettyView;

    open spec fn view(&self) -> JettyView {
        JettyView {
            handle: self.handle,
            node_id: self.node_id,
            jfs: self.jfs@,
            jfr: self.jfr@,
            jfc: self.jfc@,
            config: JettyConfig {
                jfs_depth: self.jfs_depth,
                jfr_depth: self.jfr_depth,
                jfc_depth: self.jfc_depth,
                jfc_high_watermark: self.jfc_high_watermark,
            },
            closed: self.closed,
        }
    }
}

impl Jetty {
    pub fn new(handle: JettyHandle, node_id: u16, config: &JettyConfig) -> (r: Self)
        ensures
            r@ == (JettyView {
                handle,
                node_id,
                jfs: Seq::empty(),
                jfr: Seq::empty(),
                jfc: Seq::empty(),
                config: *config,
                closed: false,
            }),
            r@.within_depths(),
    {
        Jetty {
            handle,
            node_id,
            jfs: VecDeque::new(),
            jfr: VecDeque::new(),
            jfc: VecDeque::new(),
            jfs_depth: config.jfs_depth,
            jfr_depth: config.jfr_depth,
            jfc_depth: config.jfc_depth,
            jfc_high_watermark: config.jfc_high_watermark,
            closed: false,
        }
    }

    /// Posts a receive buffer. Refuses where the receive queue is full.
    pub fn post_recv(&mut self, buf: Vec<u8>, wr_id: WrId) -> (r: Result<(), UbError>)
        ensures
            old(self)@.within_depths() ==> final(self)@.within_depths(),
            match r {
                Ok(_) => old(self)@.jfr.len() < old(self)@.config.jfr_depth && final(self)@ == (
                JettyView { jfr: old(self)@.jfr.push(RecvBuffer { buf, wr_id }), ..old(self)@ }),
                Err(e) => old(self)@.jfr.len() >= old(self)@.config.jfr_depth && *final(self)
                    == *old(self) && e == UbError::NoResources,
            },
    {
        if self.jfr.len() >= self.jfr_depth as usize {
            return Err(UbError::NoResources);
        }
        self.jfr.push_back(RecvBuffer { buf, wr_id });
        Ok(())
    }

    /// Posts a send. Refuses where completions have piled up to the watermark, or the send
    /// queue is full.
    pub fn post_send(&mut self, wr: WorkRequest) -> (r: Result<(), UbError>)
        ensures
            old(self)@.within_depths() ==> final(self)@.within_depths(),
            match r {
                Ok(_) => old(self)@.takes_sends() && final(self)@ == (JettyView {
                    jfs: old(self)@.jfs.push(wr),
                    ..old(self)@
                }),
                Err(e) => !old(self)@.takes_sends() && *final(self) == *old(self) && e
                    == UbError::NoResources,
            },
    {
        if self.jfc.len() >= self.jfc_high_watermark as usize {
            return Err(UbError::NoResources);
        }
        if self.jfs.len() >= self.jfs_depth as usize {
            return Err(UbError::NoResources);
        }
        self.jfs.push_back(wr);
        Ok(())
    }

    /// Takes the send that has waited longest.
    pub fn pop_send(&mut self) -> (r: Option<WorkRequest>)
        ensures
            old(self)@.within_depths() ==> final(self)@.within_depths(),
            match r {
                Some(w) => old(self)@.jfs.len() > 0 && w == old(self)@.jfs[0] && final(self)@ == (
                JettyView { jfs: old(self)@.jfs.skip(1), ..old(self)@ }),
                None => old(self)@.jfs.len() == 0 && final(self)@ == old(self)@,
            },
    {
        let r = self.jfs.pop_front();
        proof {
            if r is Some {
                assert(self.jfs@ =~= old(self).jfs@.skip(1));
            } else {
                assert(self.jfs@ =~= old(self).jfs@);
            }
        }
        r
    }

    /// Takes the receive buffer that has waited longest.
    pub fn pop_recv(&mut self) -> (r: Option<RecvBuffer>)
        ensures
            old(self)@.within_depths() ==> final(self)@.within_depths(),
            match r {
                Some(b) => old(self)@.jfr.len() > 0 && b == old(self)@.jfr[0] && final(self)@ == (
                JettyView { jfr: old(self)@.jfr.skip(1), ..old(self)@ }),
                None => old(self)@.jfr.len() == 0 && final(self)@ == old(self)@,
            },
    {
        let r = self.jfr.pop_front();
        proof {
            if r is Some {
                assert(self.jfr@ =~= old(self).jfr@.skip(1));
            } else {
                assert(self.jfr@ =~= old(self).jfr@);
            }
        }
        r
    }

    /// Adds a completion. Refuses where the completion queue is full.
    pub fn push_cqe(&mut self, cqe: Cqe) -> (r: Result<(), UbError>)
        ensures
            old(self)@.within_depths() ==> final(self)@.within_depths(),
            match r {
                Ok(_) => old(self)@.jfc.len() < old(self)@.config.jfc_depth && final(self)@ == (
                JettyView { jfc: old(self)@.jfc.push(cqe), ..old(self)@ }),
                Err(e) => old(self)@.jfc.len() >= old(self)@.config.jfc_depth && *final(self)
                    == *old(self) && e == UbError::NoResources,
            },
    {
        if self.jfc.len() >= self.jfc_depth as usize {
            return Err(UbError::NoResources);
        }
        self.jfc.push_back(cqe);
        Ok(())
    }

    /// Takes the completion that has waited longest.
    pub fn poll_cqe(&mut self) -> (r: Option<Cqe>)
        ensures
            old(self)@.within_depths() ==> final(self)@.within_depths(),
            match r {
                Some(c) => old(self)@.jfc.len() > 0 && c == old(self)@.jfc[0] && final(self)@ == (
                JettyView { jfc: old(self)@.jfc.skip(1), ..old(self)@ }),
                None => old(self)@.jfc.len() == 0 && final(self)@ == old(self)@,
            },
    {
        let r = self.jfc.pop_front();
        proof {
            if r is Some {
                assert(self.jfc@ =~= old(self).jfc@.skip(1));
            } else {
                assert(self.jfc@ =~= old(self).jfc@);
            }
        }
        r
    }

    pub fn cqe_count(&self) -> (r: usize)
        ensures
            r == self@.jfc.len(),
    {
        self.jfc.len()
    }

    pub fn addr(&self) -> (r: JettyAddr)
        ensures
            r == (JettyAddr { node_id: self@.node_id, jetty_id: self@.handle.0 }),
    {
        JettyAddr { node_id: self.node_id, jetty_id: self.handle.0 }
    }

    /// Closes the jetty. Waiting sends and receive buffers complete as flushed, however
    /// many completions wait already.
    pub fn close(&mut self)
        ensures
            old(self)@.within_depths() ==> final(self)@.within_depths(),
            final(self)@ == old(self)@.after_close(),
    {
        if self.closed {
            return;
        }
        self.closed = true;
        let id: u32 = self.handle.0;
        let ghost sends = self.jfs@;
        let ghost recvs = self.jfr@;
        let ghost done = self.jfc@;
        let ghost f = |w: WorkRequest| flushed(w.wr_id, w.verb, id);
        let ghost g = |b: RecvBuffer| flushed(b.wr_id, Verb::Send, id);
        let ghost mut i: int = 0;
        proof {
            assert(self.jfs@ =~= sends.skip(0));
            assert(self.jfc@ =~= done + sends.take(0).map_values(f));
        }
        while self.jfs.len() > 0
            invariant
                0 <= i <= sends.len(),
                self.jfs@ == sends.skip(i),
                self.jfc@ == done + sends.take(i).map_values(f),
                f == (|w: WorkRequest| flushed(w.wr_id, w.verb, id)),
                id == self.handle.0,
                self.jfr@ == recvs,
                self.closed,
                *self == (Jetty { jfs: self.jfs, jfc: self.jfc, closed: true, ..*old(self) }),
            decreases self.jfs@.len(),
        {
            match self.jfs.pop_front() {
                Some(wr) => {
                    assert(wr == sends[i]);
                    self.jfc.push_back(
                        Cqe {
                            wr_id: wr.wr_id,
                            status: UB_ERR_FLUSHED,
                            imm: None,
                            byte_len: 0,
                            jetty_id: id,
                            verb: wr.verb,
                        },
                    );
                },
                None => {},
            }
            proof {
                i = i + 1;
                assert(self.jfs@ =~= sends.skip(i));
                assert(self.jfc@ =~= done + sends.take(i).map_values(f));
            }
        }
        let ghost mid = self.jfc@;
        proof {
            assert(sends.take(i) =~= sends);
            assert(self.jfr@ =~= recvs.skip(0));
            assert(self.jfc@ =~= mid + recvs.take(0).map_values(g));
        }
        let ghost mut j: int = 0;
        while self.jfr.len() > 0
            invariant
                0 <= j <= recvs.len(),
                self.jfr@ == recvs.skip(j),
                self.jfc@ == mid + recvs.take(j).map_values(g),
                g == (|b: RecvBuffer| flushed(b.wr_id, Verb::Send, id)),
                id == self.handle.0,
                self.jfs@.len() == 0,
                *self == (Jetty {
                    jfs: self.jfs,
                    jfr: self.jfr,
                    jfc: self.jfc,
                    closed: true,
                    ..*old(self)
                }),
            decreases self.jfr@.len(),
        {
            match self.jfr.pop_front() {
                Some(b) => {
                    assert(b == recvs[j]);
                    self.jfc.push_back(
                        Cqe {
                            wr_id: b.wr_id,
                            status: UB_ERR_FLUSHED,
                            imm: None,
                            byte_len: 0,
                            jetty_id: id,
                            verb: Verb::Send,
                        },
                    );
                },
                None => {},
            }
            proof {
                j = j + 1;
                assert(self.jfr@ =~= recvs.skip(j));
                assert(self.jfc@ =~= mid + recvs.take(j).map_values(g));
            }
        }
        proof {
            assert(recvs.take(j) =~= recvs);
            assert(self.jfs@ =~= Seq::empty());
            assert(self.jfr@ =~= Seq::empty());
            assert(self.jfc@ =~= old(self)@.after_close().jfc);
        }
    }

    pub fn is_closed(&self) -> (r: bool)
        ensures
            r == self@.closed,
    {
        self.closed
    }
}

/// Completions come out in the order in which they went in, behind those that waited
/// before.
pub proof fn lemma_completions_in_order(j: JettyView, a: Cqe, b: Cqe)
    ensures
        ({
            let q = j.jfc.push(a).push(b);
            let n = j.jfc.len() as int;
            &&& q.take(n) == j.jfc
            &&& q.skip(n)[0] == a
            &&& q.skip(n).skip(1) == seq![b]
        }),
{
    let q = j.jfc.push(a).push(b);
    let n = j.jfc.len() as int;
    assert(q.take(n) =~= j.jfc);
    assert(q.skip(n).skip(1) =~= seq![b]);
}

/// A summary of a jetty.
#[derive(Debug, Clone, Copy)]
pub struct JettyInfo {
    pub handle: JettyHandle,
    pub node_id: u16,
    pub jfs_depth: u32,
    pub jfr_depth: u32,
    pub jfc_depth: u32,
    pub jfc_high_watermark: u32,
    pub cqe_count: usize,
    pub jfs_count: usize,
    pub jfr_count: usize,
}

/// Whether a summary is that of a jetty.
pub open spec fn info_of(i: JettyInfo, j: JettyView) -> bool {
    &&& i.handle == j.handle
    &&& i.node_id == j.node_id
    &&& i.jfs_depth == j.config.jfs_depth
    &&& i.jfr_depth == j.config.jfr_depth
    &&& i.jfc_depth == j.config.jfc_depth
    &&& i.jfc_high_watermark == j.config.jfc_high_watermark
    &&& i.cqe_count == j.jfc.len()
    &&& i.jfs_count == j.jfs.len()
    &&& i.jfr_count == j.jfr.len()
}

/// A summary tells the depths of the queues and how much waits in each.
pub proof fn lemma_info(i: JettyInfo, j: JettyView)
    requires
        info_of(i, j),
    ensures
        i.handle == j.handle && i.node_id == j.node_id,
        i.jfs_depth == j.config.jfs_depth && i.jfs_count == j.jfs.len(),
        i.jfr_depth == j.config.jfr_depth && i.jfr_count == j.jfr.len(),
        i.jfc_depth == j.config.jfc_depth && i.cqe_count == j.jfc.len(),
        i.jfc_high_watermark == j.config.jfc_high_watermark,
{
}

/// What a `JettyTable` holds.
#[verifier::ext_equal]
pub struct JettyTableView {
    pub entries: Map<u32, Jetty>,
    pub next_handle: u32,
    /// The first jetty; zero where there is none.
    pub first: u32,
    pub node_id: u16,
    pub config: JettyConfig,
}

impl JettyTableView {
    /// The default jetty: the first one that was created, as long as it exists.
    pub open spec fn spec_default(self) -> Option<JettyHandle> {
        if self.first != 0 && self.entries.contains_key(self.first) {
            Some(JettyHandle(self.first))
        } else {
            None
        }
    }
}

impl JettyTableView {
    /// The default jetty is the first one, as long as it exists.
    pub proof fn lemma_default(self)
        ensures
            self.spec_default() is Some <==> self.first != 0 && self.entries.contains_key(
                self.first,
            ),
            self.spec_default() matches Some(h) ==> h.0 == self.first,
    {
    }
}

/// The jettys of a node.
pub struct JettyTable {
    entries: Table<Jetty>,
    next_handle: u32,
    node_id: u16,
    config: JettyConfig,
    default_jetty: u32,
}

impl View for JettyTable {
    type V = JettyTableView;

    closed spec fn view(&self) -> JettyTableView {
        JettyTableView {
            entries: Map::new(
                |h: u32| self.entries@.contains_key(h as u128),
                |h: u32| self.entries@[h as u128],
            ),
            next_handle: self.next_handle,
            first: self.default_jetty,
            node_id: self.node_id,
            config: self.config,
        }
    }
}

impl JettyTable {
    pub closed spec fn wf(&self) -> bool {
        &&& self.entries.wf()
        &&& forall|k: u128| #[trigger]
            self.entries@.contains_key(k) ==> k <= u32::MAX && self.entries@[k].handle.0 == k
    }

    pub fn new(node_id: u16, config: JettyConfig) -> (r: Self)
        ensures
            r.wf(),
            r@ == (JettyTableView {
                entries: Map::empty(),
                next_handle: 1,
                first: 0,
                node_id,
                config,
            }),
    {
        let r = JettyTable {
            entries: Table::new(),
            next_handle: 1,
            node_id,
            config,
            default_jetty: 0,
        };
        assert(r@.entries =~= Map::empty());
        r
    }

    /// Creates a jetty under the next handle. The first one becomes the default.
    pub fn create(&mut self) -> (r: Result<JettyHandle, UbError>)
        requires
            old(self).wf(),
        ensures
            final(self).wf(),
            r == Ok::<JettyHandle, UbError>(JettyHandle(old(self)@.next_handle)),
            ({
                let h = old(self)@.next_handle;
                let j = final(self)@.entries[h];
                &&& j@ == (JettyView {
                    handle: JettyHandle(h),
                    node_id: old(self)@.node_id,
                    jfs: Seq::empty(),
                    jfr: Seq::empty(),
                    jfc: Seq::empty(),
                    config: old(self)@.config,
                    closed: false,
                })
                &&& final(self)@ == (JettyTableView {
                    entries: old(self)@.entries.insert(h, j),
                    next_handle: if h == u32::MAX {
                        0
                    } else {
                        (h + 1) as u32
                    },
                    first: if old(self)@.first == 0 {
                        h
                    } else {
                        old(self)@.first
                    },
                    ..old(self)@
                })
            }),
    {
        let h: u32 = self.next_handle;
        self.next_handle = if h == u32::MAX {
            0
        } else {
            h + 1
        };
        let handle = JettyHandle(h);
        let jetty = Jetty::new(handle, self.node_id, &self.config);
        self.entries.insert(h as u128, jetty);
        if self.default_jetty == 0 {
            self.default_jetty = h;
        }
        assert(self@.entries =~= old(self)@.entries.insert(h, self@.entries[h]));
        Ok(handle)
    }

    /// The default jetty.
    pub fn default_jetty(&self) -> (r: Option<JettyHandle>)
        requires
            self.wf(),
        ensures
            r == self@.spec_default(),
    {
        let h: u32 = self.default_jetty;
        if h != 0 && self.entries.contains(h as u128) {
            Some(JettyHandle(h))
        } else {
            None
        }
    }

    /// The jetty with the given handle.
    pub fn lookup(&self, handle: u32) -> (r: Option<&Jetty>)
        requires
            self.wf(),
        ensures
            match r {
                Some(j) => self@.entries.contains_key(handle) && *j == self@.entries[handle],
                None => !self@.entries.contains_key(handle),
            },
    {
        self.entries.get(handle as u128)
    }

    /// Posts a receive buffer to a jetty.
    pub fn post_recv(&mut self, handle: u32, buf: Vec<u8>, wr_id: WrId) -> (r: Result<(), UbError>)
        requires
            old(self).wf(),
        ensures
            final(self).wf(),
            final(self)@ == (JettyTableView { entries: final(self)@.entries, ..old(self)@ }),
            if !old(self)@.entries.contains_key(handle) {
                r == Err::<(), UbError>(UbError::AddrInvalid) && final(self)@ == old(self)@
            } else {
                let a = old(self)@.entries[handle]@;
                let b = final(self)@.entries[handle]@;
                &&& final(self)@.entries == old(self)@.entries.insert(
                    handle,
                    final(self)@.entries[handle],
                )
                &&& if a.jfr.len() < a.config.jfr_depth {
                    r is Ok && b == (JettyView { jfr: a.jfr.push(RecvBuffer { buf, wr_id }), ..a })
                } else {
                    r == Err::<(), UbError>(UbError::NoResources) && b == a
                }
            },
    {
        let r = match self.entries.get_mut(handle as u128) {
            Some(j) => j.post_recv(buf, wr_id),
            None => Err(UbError::AddrInvalid),
        };
        proof {
            if old(self)@.entries.contains_key(handle) {
                assert(self@.entries =~= old(self)@.entries.insert(
                    handle,
                    self@.entries[handle],
                ));
            } else {
                assert(self@.entries =~= old(self)@.entries);
            }
        }
        r
    }

    /// Takes a receive buffer from a jetty.
    pub fn pop_recv(&mut self, handle: u32) -> (r: Option<RecvBuffer>)
        requires
            old(self).wf(),
        ensures
            final(self).wf(),
            final(self)@ == (JettyTableView { entries: final(self)@.entries, ..old(self)@ }),
            if !old(self)@.entries.contains_key(handle) {
                r is None && final(self)@ == old(self)@
            } else {
                let a = old(self)@.entries[handle]@;
                let b = final(self)@.entries[handle]@;
                &&& final(self)@.entries == old(self)@.entries.insert(
                    handle,
                    final(self)@.entries[handle],
                )
                &&& match r {
                    Some(x) => a.jfr.len() > 0 && x == a.jfr[0] && b == (JettyView {
                        jfr: a.jfr.skip(1),
                        ..a
                    }),
                    None => a.jfr.len() == 0 && b == a,
                }
            },
    {
        let r = match self.entries.get_mut(handle as u128) {
            Some(j) => j.pop_recv(),
            None => None,
        };
        proof {
            if old(self)@.entries.contains_key(handle) {
                assert(self@.entries =~= old(self)@.entries.insert(
                    handle,
                    self@.entries[handle],
                ));
            } else {
                assert(self@.entries =~= old(self)@.entries);
            }
        }
        r
    }

    /// Adds a completion to a jetty.
    pub fn push_cqe(&mut self, handle: u32, cqe: Cqe) -> (r: Result<(), UbError>)
        requires
            old(self).wf(),
        ensures
            final(self).wf(),
            final(self)@ == (JettyTableView { entries: final(self)@.entries, ..old(self)@ }),
            if !old(self)@.entries.contains_key(handle) {
                r == Err::<(), UbError>(UbError::AddrInvalid) && final(self)@ == old(self)@
            } else {
                let a = old(self)@.entries[handle]@;
                let b = final(self)@.entries[handle]@;
                &&& final(self)@.entries == old(self)@.entries.insert(
                    handle,
                    final(self)@.entries[handle],
                )
                &&& if a.jfc.len() < a.config.jfc_depth {
                    r is Ok && b == (JettyView { jfc: a.jfc.push(cqe), ..a })
                } else {
                    r == Err::<(), UbError>(UbError::NoResources) && b == a
                }
            },
    {
        let r = match self.entries.get_mut(handle as u128) {
            Some(j) => j.push_cqe(cqe),
            None => Err(UbError::AddrInvalid),
        };
        proof {
            if old(self)@.entries.contains_key(handle) {
                assert(self@.entries =~= old(self)@.entries.insert(
                    handle,
                    self@.entries[handle],
                ));
            } else {
                assert(self@.entries =~= old(self)@.entries);
            }
        }
        r
    }

    /// Takes a completion from a jetty.
    pub fn poll_cqe(&mut self, handle: u32) -> (r: Option<Cqe>)
        requires
            old(self).wf(),
        ensures
            final(self).wf(),
            final(self)@ == (JettyTableView { entries: final(self)@.entries, ..old(self)@ }),
            if !old(self)@.entries.contains_key(handle) {
                r is None && final(self)@ == old(self)@
            } else {
                let a = old(self)@.entries[handle]@;
                let b = final(self)@.entries[handle]@;
                &&& final(self)@.entries == old(self)@.entries.insert(
                    handle,
                    final(self)@.entries[handle],
                )
                &&& match r {
                    Some(c) => a.jfc.len() > 0 && c == a.jfc[0] && b == (JettyView {
                        jfc: a.jfc.skip(1),
                        ..a
                    }),
                    None => a.jfc.len() == 0 && b == a,
                }
            },
    {
        let r = match self.entries.get_mut(handle as u128) {
            Some(j) => j.poll_cqe(),
            None => None,
        };
        proof {
            if old(self)@.entries.contains_key(handle) {
                assert(self@.entries =~= old(self)@.entries.insert(
                    handle,
                    self@.entries[handle],
                ));
            } else {
                assert(self@.entries =~= old(self)@.entries);
            }
        }
        r
    }

    /// Removes a jetty and closes it; a removed default leaves no default. Returns the
    /// closed jetty, whose completions can still be taken.
    pub fn deregister(&mut self, handle: u32) -> (r: Result<Jetty, UbError>)
        requires
            old(self).wf(),
        ensures
            final(self).wf(),
            match r {
                Ok(j) => {
                    &&& old(self)@.entries.contains_key(handle)
                    &&& j@ == old(self)@.entries[handle]@.after_close()
                    &&& final(self)@ == (JettyTableView {
                        entries: old(self)@.entries.remove(handle),
                        first: if old(self)@.first == handle {
                            0
                        } else {
                            old(self)@.first
                        },
                        ..old(self)@
                    })
                },
                Err(e) => !old(self)@.entries.contains_key(handle) && e == UbError::AddrInvalid
                    && final(self)@ == old(self)@,
            },
    {
        match self.entries.remove(handle as u128) {
            Some(j) => {
                let mut jetty = j;
                if self.default_jetty == handle {
                    self.default_jetty = 0;
                }
                jetty.close();
                assert(self@.entries =~= old(self)@.entries.remove(handle));
                Ok(jetty)
            },
            None => Err(UbError::AddrInvalid),
        }
    }

    /// A summary of every jetty, each once.
    pub fn list(&self) -> (r: Vec<JettyInfo>)
        requires
            self.wf(),
        ensures
            forall|i: int|
                0 <= i < r@.len() ==> self@.entries.contains_key((#[trigger] r@[i]).handle.0)
                    && info_of(r@[i], self@.entries[r@[i].handle.0]@),
            forall|h: u32| #[trigger]
                self@.entries.contains_key(h) ==> exists|i: int|
                    0 <= i < r@.len() && (#[trigger] r@[i]).handle.0 == h,
            forall|i: int, j: int|
                0 <= i < j < r@.len() ==> (#[trigger] r@[i]).handle != (#[trigger] r@[j]).handle,
    {
        let n: usize = self.entries.len();
        let mut out: Vec<JettyInfo> = Vec::new();
        let mut i: usize = 0;
        proof {
            self.entries.lemma_positions();
        }
        while i < n
            invariant
                i <= n,
                n == self.entries.key_seq().len(),
                self.wf(),
                out@.len() == i,
                forall|p: int|
                    0 <= p < i ==> (#[trigger] out@[p]).handle.0 as u128
                        == self.entries.key_seq()[p] && self@.entries.contains_key(
                        out@[p].handle.0,
                    ) && info_of(out@[p], self@.entries[out@[p].handle.0]@),
            decreases n - i,
        {
            proof {
                self.entries.lemma_positions();
                let k = self.entries.key_seq()[i as int];
                assert(self.entries@.contains_key(k));
                assert(self@.entries.contains_key(k as u32));
            }
            let j = self.entries.val_at(i);
            out.push(
                JettyInfo {
                    handle: j.handle,
                    node_id: j.node_id,
                    jfs_depth: j.jfs_depth,
                    jfr_depth: j.jfr_depth,
                    jfc_depth: j.jfc_depth,
                    jfc_high_watermark: j.jfc_high_watermark,
                    cqe_count: j.cqe_count(),
                    jfs_count: j.jfs.len(),
                    jfr_count: j.jfr.len(),
                },
            );
            i = i + 1;
        }
        proof {
            self.entries.lemma_positions();
            assert forall|h: u32| #[trigger] self@.entries.contains_key(h) implies exists|i: int|
                0 <= i < out@.len() && (#[trigger] out@[i]).handle.0 == h by {
                assert(self.entries@.contains_key(h as u128));
                let p = choose|p: int|
                    0 <= p < self.entries.key_seq().len() && self.entries.key_seq()[p] == h as u128
                        && self.entries.val_seq()[p] == self.entries@[h as u128];
                assert(out@[p].handle.0 == h);
            }
            assert forall|i: int, j: int| 0 <= i < j < out@.len() implies (
            #[trigger] out@[i]).handle != (#[trigger] out@[j]).handle by {
                assert(self.entries.key_seq()[i] != self.entries.key_seq()[j]);
            }
        }
        out
    }
}

} // verus!
