//! Memory regions: the regions registered on this node, and those known of other nodes.
use crate::addr::{AddrFields, UbAddr};
use crate::device::{AnyDevice, Device, DeviceView};
use crate::error::UbError;
use crate::table::Table;
use crate::types::{DeviceKind, MrHandle, MrPerms, MrState, Verb};
use vstd::prelude::*;

verus! {

/// A device of a `MrTable`. Regions may share one.
#[derive(Debug, Clone, Copy, PartialEq, Eq, Structural)]
pub struct DeviceRef(pub usize);

/// A memory region registered on this node.
#[derive(Debug, Clone, Copy)]
pub struct MrEntry {
    pub handle: u32,
    pub device: DeviceRef,
    pub base_offset: u64,
    pub len: u64,
    pub perms: MrPerms,
    pub base_ub_addr: UbAddr,
    pub state: MrState,
    pub inflight_refs: i64,
}

/// The permission bit that a verb needs.
pub open spec fn needed_bit(verb: Verb) -> u8 {
    match verb {
        Verb::ReadReq | Verb::ReadResp => 0b001,
        Verb::Write | Verb::WriteImm | Verb::Send => 0b010,
        Verb::AtomicCas | Verb::AtomicFaa | Verb::AtomicCasResp | Verb::AtomicFaaResp => 0b100,
    }
}

impl MrEntry {
    pub open spec fn spec_state(self) -> MrState {
        self.state
    }

    /// Whether the region's permissions allow the verb.
    pub open spec fn allows(self, verb: Verb) -> bool {
        self.perms.spec_bits() & needed_bit(verb) == needed_bit(verb)
    }

    /// Whether the address lies in the region.
    pub open spec fn covers(self, addr: UbAddr) -> bool {
        let b = self.base_ub_addr.fields();
        let a = addr.fields();
        b.node_id == a.node_id && b.device_id == a.device_id && b.offset <= a.offset < b.offset
            + self.len
    }

    /// Reads need the first permission bit, writes and messages the second, and atomic
    /// operations the third.
    pub proof fn lemma_allows(self)
        ensures
            self.allows(Verb::ReadReq) <==> self.perms.spec_bits() & 1 == 1,
            self.allows(Verb::Write) <==> self.perms.spec_bits() & 2 == 2,
            self.allows(Verb::WriteImm) <==> self.perms.spec_bits() & 2 == 2,
            self.allows(Verb::Send) <==> self.perms.spec_bits() & 2 == 2,
            self.allows(Verb::AtomicCas) <==> self.perms.spec_bits() & 4 == 4,
            self.allows(Verb::AtomicFaa) <==> self.perms.spec_bits() & 4 == 4,
    {
    }

    /// An address lies in a region where it names its node and device and lies less than the
    /// region's length behind its start.
    pub proof fn lemma_covers(self, addr: UbAddr)
        ensures
            self.covers(addr) <==> {
                &&& addr.fields().node_id == self.base_ub_addr.fields().node_id
                &&& addr.fields().device_id == self.base_ub_addr.fields().device_id
                &&& 0 <= addr.fields().offset - self.base_ub_addr.fields().offset < self.len
            },
    {
    }

    pub fn state(&self) -> (r: MrState)
        ensures
            r == self.spec_state(),
    {
        self.state
    }

    pub fn set_state(&mut self, new: MrState)
        ensures
            final(self).spec_state() == new,
            final(self).same_but_state(*old(self)),
            final(self).inflight_refs == old(self).inflight_refs,
    {
        self.state = new;
    }

    /// Whether two entries agree in everything but state and references.
    pub open spec fn same_but_state(self, other: Self) -> bool {
        &&& self.handle == other.handle
        &&& self.device == other.device
        &&& self.base_offset == other.base_offset
        &&& self.len == other.len
        &&& self.perms == other.perms
        &&& self.base_ub_addr == other.base_ub_addr
    }

    /// Regions that differ at most in state and references have everything else in common.
    pub proof fn lemma_same_but_state(self, other: Self)
        requires
            self.same_but_state(other),
        ensures
            self.handle == other.handle,
            self.device == other.device,
            self.base_offset == other.base_offset,
            self.len == other.len,
            self.perms == other.perms,
            self.base_ub_addr == other.base_ub_addr,
    {
    }

    /// Takes a reference for an operation in flight. Refuses where the region is not active.
    pub fn try_inflight_inc(&mut self) -> (r: bool)
        ensures
            r == (old(self).spec_state() == MrState::Active),
            final(self).same_but_state(*old(self)),
            final(self).spec_state() == old(self).spec_state(),
            final(self).inflight_refs == (if r {
                one_more(old(self).inflight_refs)
            } else {
                old(self).inflight_refs
            }),
    {
        if self.state != MrState::Active {
            return false;
        }
        self.inflight_refs = if self.inflight_refs == i64::MAX {
            i64::MIN
        } else {
            self.inflight_refs + 1
        };
        true
    }

    /// Gives a reference back.
    pub fn inflight_dec(&mut self)
        ensures
            final(self).same_but_state(*old(self)),
            final(self).spec_state() == old(self).spec_state(),
            final(self).inflight_refs == one_less(old(self).inflight_refs),
    {
        self.inflight_refs = if self.inflight_refs == i64::MIN {
            i64::MAX
        } else {
            self.inflight_refs - 1
        };
    }

    /// Checks that the region's permissions allow the verb.
    pub fn check_perms(&self, verb: Verb) -> (r: Result<(), UbError>)
        ensures
            match r {
                Ok(_) => self.allows(verb),
                Err(e) => !self.allows(verb) && e == UbError::PermDenied,
            },
    {
        let required = match verb {
            Verb::ReadReq | Verb::ReadResp => MrPerms::read(),
            Verb::Write | Verb::WriteImm | Verb::Send => MrPerms::write(),
            Verb::AtomicCas | Verb::AtomicFaa | Verb::AtomicCasResp | Verb::AtomicFaaResp =>
                MrPerms::atomic(),
        };
        if self.perms.contains(required) {
            Ok(())
        } else {
            Err(UbError::PermDenied)
        }
    }
}

/// What a `MrTable` holds.
#[verifier::ext_equal]
pub struct MrTableView {
    /// The registered regions by handle.
    pub entries: Map<u32, MrEntry>,
    pub devices: Seq<DeviceView>,
    /// How much of each device's offset space is taken.
    pub taken: Map<u16, u64>,
    pub next_handle: u32,
    pub pod_id: u16,
    pub node_id: u16,
}

/// One reference more. The count starts over behind the largest number.
pub open spec fn one_more(refs: i64) -> i64 {
    if refs == i64::MAX {
        i64::MIN
    } else {
        (refs + 1) as i64
    }
}

/// One reference less. The count starts over below the smallest number.
pub open spec fn one_less(refs: i64) -> i64 {
    if refs == i64::MIN {
        i64::MAX
    } else {
        (refs - 1) as i64
    }
}

/// What to do with a region that is to be removed.
#[derive(Debug, Clone, Copy, PartialEq, Eq, Structural)]
pub enum DeregisterStep {
    /// Nothing refers to it: remove it.
    Remove,
    /// Operations are in flight, and time is left: look again later.
    Wait,
    /// Operations are in flight, and the time is up.
    Timeout,
}

/// What to do with a region that is to be removed and has so many references, after so long
/// a wait.
pub fn deregister_step(refs: i64, waited_ms: u64, limit_ms: u64) -> (r: DeregisterStep)
    ensures
        r == (if refs <= 0 {
            DeregisterStep::Remove
        } else if waited_ms >= limit_ms {
            DeregisterStep::Timeout
        } else {
            DeregisterStep::Wait
        }),
{
    if refs <= 0 {
        DeregisterStep::Remove
    } else if waited_ms >= limit_ms {
        DeregisterStep::Timeout
    } else {
        DeregisterStep::Wait
    }
}

/// `n` rounded up to a multiple of eight.
pub open spec fn round_up8(n: int) -> int {
    (n + 7) / 8 * 8
}

/// Rounding up gives the next multiple of eight, and a multiple of eight itself.
pub proof fn lemma_round_up8(n: int)
    requires
        0 <= n,
    ensures
        round_up8(n) % 8 == 0,
        n <= round_up8(n) < n + 8,
{
}

/// A reference that is taken and given back leaves the count as it was.
pub proof fn lemma_references(refs: i64)
    ensures
        refs < i64::MAX ==> one_more(refs) == refs + 1,
        refs > i64::MIN ==> one_less(refs) == refs - 1,
        one_less(one_more(refs)) == refs,
        one_more(one_less(refs)) == refs,
{
}

impl MrTableView {
    /// The first offset of a device that is not taken.
    pub open spec fn free_from(self, device_id: u16) -> int {
        if self.taken.contains_key(device_id) {
            self.taken[device_id] as int
        } else {
            0
        }
    }

    /// Where the next region of a device starts.
    pub open spec fn next_start(self, device_id: u16) -> int {
        round_up8(self.free_from(device_id))
    }

    /// Whether a region is one of this table's.
    pub open spec fn entry_ok(self, h: u32) -> bool {
        let e = self.entries[h];
        &&& e.handle == h
        &&& h < self.next_handle
        &&& e.device.0 < self.devices.len()
        &&& e.base_ub_addr.fields() == (AddrFields {
            pod_id: self.pod_id,
            node_id: self.node_id,
            device_id: self.devices[e.device.0 as int].id,
            offset: e.base_offset,
            reserved: 0,
        })
        &&& e.len > 0
        &&& e.base_offset + e.len <= self.free_from(self.devices[e.device.0 as int].id)
    }

    /// Whether two regions lie apart.
    pub open spec fn apart(a: MrEntry, b: MrEntry) -> bool {
        a.base_ub_addr.fields().device_id != b.base_ub_addr.fields().device_id || a.base_offset
            + a.len <= b.base_offset || b.base_offset + b.len <= a.base_offset
    }

    pub open spec fn wf(self) -> bool {
        &&& self.entries.dom().finite()
        &&& forall|h: u32| #[trigger] self.entries.contains_key(h) ==> self.entry_ok(h)
        &&& forall|g: u32, h: u32|
            #![trigger self.entries[g], self.entries[h]]
            self.entries.contains_key(g) && self.entries.contains_key(h) && g != h ==> Self::apart(
                self.entries[g],
                self.entries[h],
            )
    }

    /// The table with other contents of one device.
    pub open spec fn with_device(self, d: DeviceRef, v: DeviceView) -> Self {
        MrTableView { devices: self.devices.update(d.0 as int, v), ..self }
    }

    /// Whether `after` is the table with a region of `len` bytes registered behind those
    /// that the device already has.
    pub open spec fn registered(
        self,
        device: DeviceRef,
        len: u64,
        perms: MrPerms,
        addr: UbAddr,
        handle: MrHandle,
        after: Self,
    ) -> bool {
        let id = self.devices[device.0 as int].id;
        let start = self.next_start(id);
        let e = after.entries[handle.0];
        &&& handle.0 == self.next_handle
        &&& addr.fields() == (AddrFields {
            pod_id: self.pod_id,
            node_id: self.node_id,
            device_id: id,
            offset: start as u64,
            reserved: 0,
        })
        &&& e.handle == handle.0
        &&& e.device == device
        &&& e.base_offset == start
        &&& e.len == len
        &&& e.perms == perms
        &&& e.base_ub_addr == addr
        &&& e.spec_state() == MrState::Active
        &&& e.inflight_refs == 0
        &&& after == (MrTableView {
            entries: self.entries.insert(handle.0, e),
            taken: self.taken.insert(id, (start + len) as u64),
            next_handle: (self.next_handle + 1) as u32,
            ..self
        })
    }

    /// A registered region has the next handle, the length and the permissions that were
    /// asked for, no reference, and an address of this node and of its device. It starts at
    /// the first multiple of eight that is not taken, and what it covers is taken from then
    /// on. The other regions, and all devices, stay.
    pub proof fn lemma_registered(
        self,
        device: DeviceRef,
        len: u64,
        perms: MrPerms,
        addr: UbAddr,
        handle: MrHandle,
        after: Self,
        other: u32,
    )
        requires
            self.registered(device, len, perms, addr, handle, after),
            self.next_handle < u32::MAX,
            self.free_from(self.devices[device.0 as int].id) + 7 + len <= u64::MAX,
            other != handle.0,
        ensures
            ({
                let e = after.entries[handle.0];
                let id = self.devices[device.0 as int].id;
                let taken: int = if self.taken.contains_key(id) {
                    self.taken[id] as int
                } else {
                    0
                };
                &&& handle.0 == self.next_handle
                &&& after.next_handle == self.next_handle + 1
                &&& after.entries.contains_key(handle.0)
                &&& e.len == len && e.perms == perms && e.device == device && e.base_ub_addr == addr
                &&& e.state == MrState::Active && e.inflight_refs == 0
                &&& addr.fields().node_id == self.node_id
                &&& addr.fields().pod_id == self.pod_id
                &&& addr.fields().device_id == id
                &&& addr.fields().offset == e.base_offset
                &&& e.base_offset % 8 == 0
                &&& taken <= e.base_offset < taken + 8
                &&& after.taken.contains_key(id) && after.taken[id] == e.base_offset + len
                &&& after.entries.contains_key(other) == self.entries.contains_key(other)
                &&& after.entries[other] == self.entries[other]
                &&& after.devices == self.devices
            }),
    {
    }

    /// Every region stands under its own handle, has an address of this node, lies on a known
    /// device, and covers only what is taken.
    pub proof fn lemma_in_table(self, h: u32)
        requires
            self.wf(),
            self.entries.contains_key(h),
        ensures
            self.entries[h].handle == h,
            h < self.next_handle,
            self.entries[h].device.0 < self.devices.len(),
            self.entries[h].base_ub_addr.fields().node_id == self.node_id,
            self.entries[h].base_ub_addr.fields().device_id
                == self.devices[self.entries[h].device.0 as int].id,
            self.entries[h].base_ub_addr.fields().offset == self.entries[h].base_offset,
            self.entries[h].len > 0,
            self.taken.contains_key(self.devices[self.entries[h].device.0 as int].id),
            self.entries[h].base_offset + self.entries[h].len
                <= self.taken[self.devices[self.entries[h].device.0 as int].id],
    {
        assert(self.entry_ok(h));
    }

    /// No address lies in two regions.
    pub proof fn lemma_no_overlap(self, g: u32, h: u32, addr: UbAddr)
        requires
            self.wf(),
            self.entries.contains_key(g),
            self.entries.contains_key(h),
            self.entries[g].covers(addr),
            self.entries[h].covers(addr),
        ensures
            g == h,
    {
        if g != h {
            assert(self.entry_ok(g) && self.entry_ok(h));
            assert(Self::apart(self.entries[g], self.entries[h]));
        }
    }
}

/// The memory regions of this node.
pub struct MrTable {
    entries: Table<MrEntry>,
    next_handle: u32,
    taken: Table<u64>,
    devices: Vec<AnyDevice>,
    pod_id: u16,
    node_id: u16,
}

impl View for MrTable {
    type V = MrTableView;

    closed spec fn view(&self) -> MrTableView {
        MrTableView {
            entries: Map::new(
                |h: u32| self.entries@.contains_key(h as u128),
                |h: u32| self.entries@[h as u128],
            ),
            devices: self.devices@.map_values(|d: AnyDevice| d.dev()),
            taken: Map::new(
                |i: u16| self.taken@.contains_key(i as u128),
                |i: u16| self.taken@[i as u128],
            ),
            next_handle: self.next_handle,
            pod_id: self.pod_id,
            node_id: self.node_id,
        }
    }
}

impl MrTable {
    pub closed spec fn wf(&self) -> bool {
        &&& self.entries.wf()
        &&& self.taken.wf()
        &&& self@.wf()
        &&& forall|i: int| 0 <= i < self.devices@.len() ==> (#[trigger] self.devices@[i]).wf()
        &&& forall|k: u128| #[trigger] self.entries@.contains_key(k) ==> k <= u32::MAX
    }

    /// The regions of a table lie apart.
    pub proof fn lemma_view(&self)
        requires
            self.wf(),
        ensures
            self@.wf(),
    {
    }

    /// A table without regions or devices.
    pub fn new(pod_id: u16, node_id: u16) -> (r: Self)
        ensures
            r.wf(),
            r@ == (MrTableView {
                entries: Map::empty(),
                devices: Seq::empty(),
                taken: map![0u16 => 0u64],
                next_handle: 1,
                pod_id,
                node_id,
            }),
    {
        let mut taken: Table<u64> = Table::new();
        taken.insert(0, 0);
        let r = MrTable {
            entries: Table::new(),
            next_handle: 1,
            taken,
            devices: Vec::new(),
            pod_id,
            node_id,
        };
        proof {
            assert(r@.entries =~= Map::empty());
            assert(r@.devices =~= Seq::empty());
            assert(r@.taken =~= map![0u16 => 0u64]);
        }
        r
    }

    /// Adds a device that regions can be registered on.
    pub fn add_device(&mut self, device: AnyDevice) -> (r: DeviceRef)
        requires
            old(self).wf(),
            device.wf(),
        ensures
            final(self).wf(),
            r.0 == old(self)@.devices.len(),
            final(self)@ == (MrTableView {
                devices: old(self)@.devices.push(device.dev()),
                ..old(self)@
            }),
    {
        let n: usize = self.devices.len();
        self.devices.push(device);
        proof {
            assert(self@.devices =~= old(self)@.devices.push(device.dev()));
            assert(self@.entries =~= old(self)@.entries);
            assert(self@.taken =~= old(self)@.taken);
            assert forall|h: u32| #[trigger] self@.entries.contains_key(h) implies self@.entry_ok(
                h,
            ) by {
                assert(old(self)@.entry_ok(h));
            }
            assert forall|i: int| 0 <= i < self.devices@.len() implies (
            #[trigger] self.devices@[i]).wf() by {
                if i < n {
                    assert(self.devices@[i] == old(self).devices@[i]);
                }
            }
        }
        DeviceRef(n)
    }

    /// Whether handles and offsets suffice for another region of `len` bytes on a device.
    pub fn has_room(&self, device_id: u16, len: u64) -> (r: bool)
        requires
            self.wf(),
        ensures
            r == (self@.next_handle < u32::MAX && self@.free_from(device_id) + 7 + len <= u64::MAX),
    {
        let free: u64 = match self.taken.get(device_id as u128) {
            Some(n) => *n,
            None => 0,
        };
        self.next_handle < u32::MAX && free <= u64::MAX - 7 && len <= u64::MAX - 7 - free
    }

    /// Registers a region of `len` bytes behind those that the device already has. Returns
    /// its address and handle.
    pub fn register(&mut self, device: DeviceRef, len: u64, perms: MrPerms) -> (r: Result<
        (UbAddr, MrHandle),
        UbError,
    >)
        requires
            old(self).wf(),
            device.0 < old(self)@.devices.len(),
            len > 0 ==> old(self)@.next_handle < u32::MAX && old(self)@.free_from(
                old(self)@.devices[device.0 as int].id,
            ) + 7 + len <= u64::MAX,
        ensures
            final(self).wf(),
            match r {
                Err(e) => len == 0 && e == UbError::AddrInvalid && final(self)@ == old(self)@,
                Ok((addr, handle)) => len > 0 && old(self)@.registered(
                    device,
                    len,
                    perms,
                    addr,
                    handle,
                    final(self)@,
                ),
            },
    {
        if len == 0 {
            return Err(UbError::AddrInvalid);
        }
        let device_id: u16 = self.devices[device.0].device_id();
        let free: u64 = match self.taken.get(device_id as u128) {
            Some(n) => *n,
            None => 0,
        };
        let offset: u64 = (free + 7) / 8 * 8;
        self.taken.insert(device_id as u128, offset + len);
        let handle: u32 = self.next_handle;
        self.next_handle = handle + 1;
        let base_ub_addr = UbAddr::new(self.pod_id, self.node_id, device_id, offset, 0);
        let entry = MrEntry {
            handle,
            device,
            base_offset: offset,
            len,
            perms,
            base_ub_addr,
            state: MrState::Active,
            inflight_refs: 0,
        };
        self.entries.insert(handle as u128, entry);
        proof {
            let before = old(self)@;
            assert(before.devices[device.0 as int] == old(self).devices@[device.0 as int].dev());
            assert(self@.entries =~= before.entries.insert(handle, entry));
            assert(self@.taken =~= before.taken.insert(device_id, (offset + len) as u64));
            assert(self@.devices =~= before.devices);
            assert forall|h: u32| #[trigger] self@.entries.contains_key(h) implies self@.entry_ok(
                h,
            ) by {
                if h != handle {
                    assert(before.entries.contains_key(h));
                    assert(before.entry_ok(h));
                }
            }
            assert forall|g: u32, h: u32|
                #![trigger self@.entries[g], self@.entries[h]]
                self@.entries.contains_key(g) && self@.entries.contains_key(h) && g
                    != h implies MrTableView::apart(self@.entries[g], self@.entries[h]) by {
                if g != handle {
                    assert(before.entries.contains_key(g));
                    assert(before.entry_ok(g));
                }
                if h != handle {
                    assert(before.entries.contains_key(h));
                    assert(before.entry_ok(h));
                }
                if g != handle && h != handle {
                    assert(MrTableView::apart(before.entries[g], before.entries[h]));
                }
            }
        }
        Ok((base_ub_addr, MrHandle(handle)))
    }

    /// Removes a region.
    pub fn deregister(&mut self, handle: MrHandle) -> (r: Result<(), UbError>)
        requires
            old(self).wf(),
        ensures
            final(self).wf(),
            final(self)@ == (MrTableView {
                entries: old(self)@.entries.remove(handle.0),
                ..old(self)@
            }),
            match r {
                Ok(_) => old(self)@.entries.contains_key(handle.0),
                Err(e) => !old(self)@.entries.contains_key(handle.0) && e == UbError::AddrInvalid,
            },
    {
        let gone = self.entries.remove(handle.0 as u128);
        proof {
            assert(self@.entries =~= old(self)@.entries.remove(handle.0));
            assert(self@.taken =~= old(self)@.taken);
            assert(self@.devices =~= old(self)@.devices);
            assert forall|h: u32| #[trigger] self@.entries.contains_key(h) implies self@.entry_ok(
                h,
            ) by {
                assert(old(self)@.entry_ok(h));
            }
        }
        if gone.is_none() {
            return Err(UbError::AddrInvalid);
        }
        Ok(())
    }

    /// The region with the given handle.
    pub fn lookup(&self, handle: u32) -> (r: Option<&MrEntry>)
        requires
            self.wf(),
        ensures
            match r {
                Some(e) => self@.entries.contains_key(handle) && *e == self@.entries[handle],
                None => !self@.entries.contains_key(handle),
            },
    {
        self.entries.get(handle as u128)
    }

    /// The region that an address lies in, and the offset within it.
    pub fn lookup_by_addr(&self, addr: UbAddr) -> (r: Option<(&MrEntry, u64)>)
        requires
            self.wf(),
        ensures
            match r {
                Some((e, off)) => {
                    &&& self@.entries.contains_key(e.handle)
                    &&& *e == self@.entries[e.handle]
                    &&& e.covers(addr)
                    &&& off == addr.fields().offset - e.base_offset
                },
                None => forall|h: u32| #[trigger]
                    self@.entries.contains_key(h) ==> !self@.entries[h].covers(addr),
            },
    {
        let n: usize = self.entries.len();
        let node_id: u16 = addr.node_id();
        let device_id: u16 = addr.device_id();
        let want: u64 = addr.offset();
        let mut i: usize = 0;
        proof {
            self.entries.lemma_positions();
        }
        while i < n
            invariant
                i <= n,
                n == self.entries.key_seq().len(),
                n == self.entries.val_seq().len(),
                self.wf(),
                node_id == addr.fields().node_id,
                device_id == addr.fields().device_id,
                want == addr.fields().offset,
                forall|p: int| 0 <= p < i ==> !(#[trigger] self.entries.val_seq()[p]).covers(addr),
            decreases n - i,
        {
            proof {
                self.entries.lemma_positions();
            }
            let e = self.entries.val_at(i);
            let ghost k = self.entries.key_seq()[i as int];
            proof {
                assert(self.entries@.contains_key(k));
                assert(k <= u32::MAX);
                assert(self@.entries.contains_key(k as u32));
                assert(self@.entry_ok(k as u32));
            }
            if e.base_ub_addr.node_id() == node_id && e.base_ub_addr.device_id() == device_id {
                let start: u64 = e.base_ub_addr.offset();
                if want >= start && want - start < e.len {
                    return Some((e, want - start));
                }
            }
            i = i + 1;
        }
        proof {
            assert forall|h: u32| #[trigger]
                self@.entries.contains_key(h) implies !self@.entries[h].covers(addr) by {
                assert(self.entries@.contains_key(h as u128));
                let p = choose|p: int|
                    0 <= p < self.entries.key_seq().len() && self.entries.key_seq()[p] == h as u128
                        && self.entries.val_seq()[p] == self.entries@[h as u128];
                assert(!self.entries.val_seq()[p].covers(addr));
            }
        }
        None
    }

    /// Every region, each once.
    pub fn list(&self) -> (r: Vec<MrEntry>)
        requires
            self.wf(),
        ensures
            r@.len() == self@.entries.len(),
            forall|i: int|
                0 <= i < r@.len() ==> self@.entries.contains_key((#[trigger] r@[i]).handle)
                    && self@.entries[r@[i].handle] == r@[i],
            forall|i: int, j: int|
                0 <= i < j < r@.len() ==> (#[trigger] r@[i]).handle != (#[trigger] r@[j]).handle,
    {
        let n: usize = self.entries.len();
        let mut out: Vec<MrEntry> = Vec::new();
        let mut i: usize = 0;
        proof {
            self.entries.lemma_positions();
            self.lemma_len();
        }
        while i < n
            invariant
                i <= n,
                n == self.entries.key_seq().len(),
                self.wf(),
                out@.len() == i,
                forall|p: int|
                    0 <= p < i ==> (#[trigger] out@[p]).handle as u128
                        == self.entries.key_seq()[p] && self@.entries.contains_key(out@[p].handle)
                        && self@.entries[out@[p].handle] == out@[p],
            decreases n - i,
        {
            proof {
                self.entries.lemma_positions();
                let k = self.entries.key_seq()[i as int];
                assert(self.entries@.contains_key(k));
                assert(k <= u32::MAX);
                assert(self@.entries.contains_key(k as u32));
                assert(self@.entry_ok(k as u32));
            }
            out.push(*self.entries.val_at(i));
            i = i + 1;
        }
        out
    }

    proof fn lemma_len(&self)
        requires
            self.wf(),
        ensures
            self@.entries.len() == self.entries@.len(),
    {
        let f = |h: u32| h as u128;
        assert forall|k: u128| #[trigger] self.entries@.dom().contains(k) implies exists|h: u32|
            self@.entries.dom().contains(h) && f(h) == k by {
            assert(self.entries@.contains_key(k));
            assert(f(k as u32) == k);
            assert(self@.entries.dom().contains(k as u32));
        }
        assert(self@.entries.dom().map(f) =~= self.entries@.dom());
        vstd::set_lib::lemma_map_size(self@.entries.dom(), self.entries@.dom(), f);
    }

    /// Sets the state of a region. Returns whether there is one.
    pub fn set_state(&mut self, handle: u32, new: MrState) -> (r: bool)
        requires
            old(self).wf(),
        ensures
            final(self).wf(),
            r == old(self)@.entries.contains_key(handle),
            !r ==> final(self)@ == old(self)@,
            r ==> ({
                let e = final(self)@.entries[handle];
                &&& e.same_but_state(old(self)@.entries[handle])
                &&& e.spec_state() == new
                &&& e.inflight_refs == old(self)@.entries[handle].inflight_refs
                &&& final(self)@ == (MrTableView {
                    entries: old(self)@.entries.insert(handle, e),
                    ..old(self)@
                })
            }),
    {
        match self.entries.get(handle as u128) {
            Some(e) => {
                let mut changed = *e;
                changed.set_state(new);
                self.replace(handle, changed);
                true
            },
            None => false,
        }
    }

    /// Takes a reference to a region for an operation in flight. Returns whether there is
    /// such a region and it is active.
    pub fn try_inflight_inc(&mut self, handle: u32) -> (r: bool)
        requires
            old(self).wf(),
        ensures
            final(self).wf(),
            r == (old(self)@.entries.contains_key(handle)
                && old(self)@.entries[handle].spec_state() == MrState::Active),
            !r ==> final(self)@ == old(self)@,
            r ==> ({
                let a = old(self)@.entries[handle];
                let e = final(self)@.entries[handle];
                &&& e.same_but_state(a)
                &&& e.spec_state() == a.spec_state()
                &&& e.inflight_refs == one_more(a.inflight_refs)
                &&& final(self)@ == (MrTableView {
                    entries: old(self)@.entries.insert(handle, e),
                    ..old(self)@
                })
            }),
    {
        match self.entries.get(handle as u128) {
            Some(e) => {
                let mut changed = *e;
                if changed.try_inflight_inc() {
                    self.replace(handle, changed);
                    true
                } else {
                    false
                }
            },
            None => false,
        }
    }

    /// Gives a reference back.
    pub fn inflight_dec(&mut self, handle: u32)
        requires
            old(self).wf(),
        ensures
            final(self).wf(),
            if old(self)@.entries.contains_key(handle) {
                let a = old(self)@.entries[handle];
                let e = final(self)@.entries[handle];
                &&& e.same_but_state(a)
                &&& e.spec_state() == a.spec_state()
                &&& e.inflight_refs == one_less(a.inflight_refs)
                &&& final(self)@ == (MrTableView {
                    entries: old(self)@.entries.insert(handle, e),
                    ..old(self)@
                })
            } else {
                final(self)@ == old(self)@
            },
    {
        match self.entries.get(handle as u128) {
            Some(e) => {
                let mut changed = *e;
                changed.inflight_dec();
                self.replace(handle, changed);
            },
            None => {},
        }
    }

    fn replace(&mut self, handle: u32, e: MrEntry)
        requires
            old(self).wf(),
            old(self)@.entries.contains_key(handle),
            e.same_but_state(old(self)@.entries[handle]),
        ensures
            final(self).wf(),
            final(self)@ == (MrTableView {
                entries: old(self)@.entries.insert(handle, e),
                ..old(self)@
            }),
    {
        self.entries.insert(handle as u128, e);
        proof {
            let before = old(self)@;
            assert(self@.entries =~= before.entries.insert(handle, e));
            assert(self@.taken =~= before.taken);
            assert(self@.devices =~= before.devices);
            assert(before.entry_ok(handle));
            assert forall|h: u32| #[trigger] self@.entries.contains_key(h) implies self@.entry_ok(
                h,
            ) by {
                assert(before.entries.contains_key(h));
                assert(before.entry_ok(h));
            }
            assert forall|g: u32, h: u32|
                #![trigger self@.entries[g], self@.entries[h]]
                self@.entries.contains_key(g) && self@.entries.contains_key(h) && g
                    != h implies MrTableView::apart(self@.entries[g], self@.entries[h]) by {
                assert(before.entries.contains_key(g) && before.entries.contains_key(h));
                assert(MrTableView::apart(before.entries[g], before.entries[h]));
            }
        }
    }

    /// The kind of a device.
    pub fn device_kind(&self, d: DeviceRef) -> (r: DeviceKind)
        requires
            self.wf(),
            d.0 < self@.devices.len(),
        ensures
            r == self@.devices[d.0 as int].kind,
    {
        self.devices[d.0].kind()
    }

    /// Reads from a device.
    pub fn device_read(&self, d: DeviceRef, offset: u64, buf: &mut [u8]) -> (r: Result<(), UbError>)
        requires
            self.wf(),
            d.0 < self@.devices.len(),
        ensures
            final(buf)@.len() == old(buf)@.len(),
            match r {
                Ok(_) => self@.devices[d.0 as int].in_bounds(offset, old(buf)@.len())
                    && final(buf)@ == self@.devices[d.0 as int].at(offset, old(buf)@.len()),
                Err(e) => !self@.devices[d.0 as int].in_bounds(offset, old(buf)@.len())
                    && final(buf)@ == old(buf)@ && e == UbError::AddrInvalid,
            },
    {
        self.devices[d.0].read(offset, buf)
    }

    /// Writes to a device.
    pub fn device_write(&mut self, d: DeviceRef, offset: u64, buf: &[u8]) -> (r: Result<
        (),
        UbError,
    >)
        requires
            old(self).wf(),
            d.0 < old(self)@.devices.len(),
        ensures
            final(self).wf(),
            ({
                let dev = old(self)@.devices[d.0 as int];
                match r {
                    Ok(_) => dev.in_bounds(offset, buf@.len())
                        && final(self)@ == old(self)@.with_device(d, dev.with(offset, buf@)),
                    Err(e) => !dev.in_bounds(offset, buf@.len()) && final(self)@ == old(self)@ && e
                        == UbError::AddrInvalid,
                }
            }),
    {
        let r = self.devices[d.0].write(offset, buf);
        proof {
            self.lemma_device_changed(*old(self), d);
        }
        r
    }

    /// Compare-and-swap on a device.
    pub fn device_cas(&mut self, d: DeviceRef, offset: u64, expect: u64, new: u64) -> (r: Result<
        u64,
        UbError,
    >)
        requires
            old(self).wf(),
            d.0 < old(self)@.devices.len(),
        ensures
            final(self).wf(),
            ({
                let dev = old(self)@.devices[d.0 as int];
                match r {
                    Ok(v) => {
                        &&& dev.atomic_fault(offset) is None
                        &&& v == dev.word(offset)
                        &&& final(self)@ == (if v == expect {
                            old(self)@.with_device(d, dev.with_word(offset, new))
                        } else {
                            old(self)@
                        })
                    },
                    Err(e) => dev.atomic_fault(offset) == Some(e) && final(self)@ == old(self)@,
                }
            }),
    {
        let r = self.devices[d.0].atomic_cas(offset, expect, new);
        proof {
            self.lemma_device_changed(*old(self), d);
        }
        r
    }

    /// Fetch-and-add on a device.
    pub fn device_faa(&mut self, d: DeviceRef, offset: u64, add: u64) -> (r: Result<u64, UbError>)
        requires
            old(self).wf(),
            d.0 < old(self)@.devices.len(),
        ensures
            final(self).wf(),
            ({
                let dev = old(self)@.devices[d.0 as int];
                match r {
                    Ok(v) => {
                        &&& dev.atomic_fault(offset) is None
                        &&& v == dev.word(offset)
                        &&& final(self)@ == old(self)@.with_device(
                            d,
                            dev.with_word(offset, ((v + add) % 0x1_0000_0000_0000_0000) as u64),
                        )
                    },
                    Err(e) => dev.atomic_fault(offset) == Some(e) && final(self)@ == old(self)@,
                }
            }),
    {
        let r = self.devices[d.0].atomic_faa(offset, add);
        proof {
            self.lemma_device_changed(*old(self), d);
        }
        r
    }

    proof fn lemma_device_changed(&self, before: Self, d: DeviceRef)
        requires
            before.wf(),
            d.0 < before.devices@.len(),
            self.entries == before.entries,
            self.taken == before.taken,
            self.next_handle == before.next_handle,
            self.pod_id == before.pod_id,
            self.node_id == before.node_id,
            self.devices@.len() == before.devices@.len(),
            self.devices@ == before.devices@.update(d.0 as int, self.devices@[d.0 as int]),
            self.devices@[d.0 as int].wf(),
            self.devices@[d.0 as int].dev().id == before.devices@[d.0 as int].dev().id,
        ensures
            self.wf(),
            self@ == before@.with_device(d, self.devices@[d.0 as int].dev()),
            self.devices@[d.0 as int].dev() == before.devices@[d.0 as int].dev() ==> self@
                == before@,
    {
        assert(self@.entries =~= before@.entries);
        assert(self@.taken =~= before@.taken);
        assert(self@.devices =~= before@.devices.update(
            d.0 as int,
            self.devices@[d.0 as int].dev(),
        ));
        if self.devices@[d.0 as int].dev() == before.devices@[d.0 as int].dev() {
            assert(self@.devices =~= before@.devices);
        }
        assert forall|h: u32| #[trigger] self@.entries.contains_key(h) implies self@.entry_ok(h) by {
            assert(before@.entry_ok(h));
        }
    }
}

/// A memory region of another node.
#[derive(Debug, Clone, Copy)]
pub struct MrCacheEntry {
    pub remote_mr_handle: u32,
    pub owner_node: u16,
    pub base_ub_addr: UbAddr,
    pub len: u64,
    pub perms: MrPerms,
    pub device_kind: DeviceKind,
}

impl MrCacheEntry {
    /// Whether the address lies in the region.
    pub open spec fn covers(self, addr: UbAddr) -> bool {
        let b = self.base_ub_addr.fields();
        let a = addr.fields();
        b.node_id == a.node_id && b.device_id == a.device_id && b.offset <= a.offset < b.offset
            + self.len
    }
}

impl MrCacheEntry {
    /// An address lies in a region of another node where it names its node and device and
    /// lies less than the region's length behind its start.
    pub proof fn lemma_covers(self, addr: UbAddr)
        ensures
            self.covers(addr) <==> {
                &&& addr.fields().node_id == self.base_ub_addr.fields().node_id
                &&& addr.fields().device_id == self.base_ub_addr.fields().device_id
                &&& 0 <= addr.fields().offset - self.base_ub_addr.fields().offset < self.len
            },
    {
    }
}

/// Owner and handle as a number.
spec fn cache_slot(owner: u16, handle: u32) -> u128 {
    (owner * 0x1_0000_0000 + handle) as u128
}

fn pack_slot(owner: u16, handle: u32) -> (r: u128)
    ensures
        r == cache_slot(owner, handle),
{
    owner as u128 * 0x1_0000_0000 + handle as u128
}

/// What is known of the memory regions of other nodes.
pub struct MrCacheTable {
    entries: Table<MrCacheEntry>,
}

impl View for MrCacheTable {
    type V = Map<(u16, u32), MrCacheEntry>;

    closed spec fn view(&self) -> Map<(u16, u32), MrCacheEntry> {
        Map::new(
            |k: (u16, u32)| self.entries@.contains_key(cache_slot(k.0, k.1)),
            |k: (u16, u32)| self.entries@[cache_slot(k.0, k.1)],
        )
    }
}

impl MrCacheTable {
    pub closed spec fn wf(&self) -> bool {
        &&& self.entries.wf()
        &&& forall|k: u128| #[trigger]
            self.entries@.contains_key(k) ==> k == cache_slot(
                self.entries@[k].owner_node,
                self.entries@[k].remote_mr_handle,
            )
    }

    pub fn new() -> (r: Self)
        ensures
            r.wf(),
            r@ == Map::<(u16, u32), MrCacheEntry>::empty(),
    {
        let r = MrCacheTable { entries: Table::new() };
        assert(r@ =~= Map::<(u16, u32), MrCacheEntry>::empty());
        r
    }

    /// Stores what is known of a region, in place of what was known of it before.
    pub fn insert(&mut self, entry: MrCacheEntry)
        requires
            old(self).wf(),
        ensures
            final(self).wf(),
            final(self)@ == old(self)@.insert((entry.owner_node, entry.remote_mr_handle), entry),
    {
        self.entries.insert(pack_slot(entry.owner_node, entry.remote_mr_handle), entry);
        assert(self@ =~= old(self)@.insert((entry.owner_node, entry.remote_mr_handle), entry));
    }

    pub fn remove(&mut self, owner_node: u16, mr_handle: u32)
        requires
            old(self).wf(),
        ensures
            final(self).wf(),
            final(self)@ == old(self)@.remove((owner_node, mr_handle)),
    {
        self.entries.remove(pack_slot(owner_node, mr_handle));
        assert(self@ =~= old(self)@.remove((owner_node, mr_handle)));
    }

    /// A region that the address lies in. Where the owners' announcements overlap, any of
    /// them.
    pub fn lookup_by_addr(&self, addr: UbAddr) -> (r: Option<MrCacheEntry>)
        requires
            self.wf(),
        ensures
            match r {
                Some(e) => e.covers(addr) && self@.contains_key((e.owner_node, e.remote_mr_handle))
                    && self@[(e.owner_node, e.remote_mr_handle)] == e,
                None => forall|k: (u16, u32)| #[trigger]
                    self@.contains_key(k) ==> !self@[k].covers(addr),
            },
    {
        let n: usize = self.entries.len();
        let node_id: u16 = addr.node_id();
        let device_id: u16 = addr.device_id();
        let want: u64 = addr.offset();
        let mut i: usize = 0;
        proof {
            self.entries.lemma_positions();
        }
        while i < n
            invariant
                i <= n,
                n == self.entries.key_seq().len(),
                n == self.entries.val_seq().len(),
                self.wf(),
                node_id == addr.fields().node_id,
                device_id == addr.fields().device_id,
                want == addr.fields().offset,
                forall|p: int| 0 <= p < i ==> !(#[trigger] self.entries.val_seq()[p]).covers(addr),
            decreases n - i,
        {
            proof {
                self.entries.lemma_positions();
                assert(self.entries@.contains_key(self.entries.key_seq()[i as int]));
            }
            let e = self.entries.val_at(i);
            if e.base_ub_addr.node_id() == node_id && e.base_ub_addr.device_id() == device_id {
                let start: u64 = e.base_ub_addr.offset();
                if want >= start && want - start < e.len {
                    return Some(*e);
                }
            }
            i = i + 1;
        }
        proof {
            assert forall|k: (u16, u32)| #[trigger]
                self@.contains_key(k) implies !self@[k].covers(addr) by {
                let s = cache_slot(k.0, k.1);
                assert(self.entries@.contains_key(s));
                let p = choose|p: int|
                    0 <= p < self.entries.key_seq().len() && self.entries.key_seq()[p] == s
                        && self.entries.val_seq()[p] == self.entries@[s];
                assert(!self.entries.val_seq()[p].covers(addr));
            }
        }
        None
    }

    /// Every known region, each once.
    pub fn list(&self) -> (r: Vec<MrCacheEntry>)
        requires
            self.wf(),
        ensures
            forall|i: int|
                0 <= i < r@.len() ==> {
                    let e = #[trigger] r@[i];
                    self@.contains_key((e.owner_node, e.remote_mr_handle)) && self@[(
                        e.owner_node,
                        e.remote_mr_handle,
                    )] == e
                },
            forall|k: (u16, u32)| #[trigger] self@.contains_key(k) ==> r@.contains(self@[k]),
            forall|i: int, j: int|
                0 <= i < j < r@.len() ==> ((#[trigger] r@[i]).owner_node, r@[i].remote_mr_handle)
                    != ((#[trigger] r@[j]).owner_node, r@[j].remote_mr_handle),
    {
        let n: usize = self.entries.len();
        let mut out: Vec<MrCacheEntry> = Vec::new();
        let mut i: usize = 0;
        proof {
            self.entries.lemma_positions();
        }
        while i < n
            invariant
                i <= n,
                n == self.entries.key_seq().len(),
                n == self.entries.val_seq().len(),
                self.wf(),
                out@.len() == i,
                forall|p: int|
                    0 <= p < i ==> #[trigger] out@[p] == self.entries.val_seq()[p] && cache_slot(
                        out@[p].owner_node,
                        out@[p].remote_mr_handle,
                    ) == self.entries.key_seq()[p] && self.entries@.contains_key(
                        self.entries.key_seq()[p],
                    ) && self.entries@[self.entries.key_seq()[p]] == out@[p],
            decreases n - i,
        {
            proof {
                self.entries.lemma_positions();
                assert(self.entries@.contains_key(self.entries.key_seq()[i as int]));
            }
            out.push(*self.entries.val_at(i));
            i = i + 1;
        }
        proof {
            self.entries.lemma_positions();
            assert forall|k: (u16, u32)| #[trigger] self@.contains_key(k) implies out@.contains(
                self@[k],
            ) by {
                let s = cache_slot(k.0, k.1);
                assert(self.entries@.contains_key(s));
                let p = choose|p: int|
                    0 <= p < self.entries.key_seq().len() && self.entries.key_seq()[p] == s
                        && self.entries.val_seq()[p] == self.entries@[s];
                assert(out@[p] == self@[k]);
            }
            assert forall|i: int, j: int| 0 <= i < j < out@.len() implies (
            (#[trigger] out@[i]).owner_node, out@[i].remote_mr_handle) != (
            (#[trigger] out@[j]).owner_node, out@[j].remote_mr_handle) by {
                assert(self.entries.key_seq()[i] != self.entries.key_seq()[j]);
            }
        }
        out
    }
}

} // verus!
