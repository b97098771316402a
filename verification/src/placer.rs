//! Placement of regions on devices.
use crate::registry::{
    best, lemma_none_has_room, lemma_picked_has_room, with_load, DeviceRegistry,
};
use crate::sub_alloc::{SubAllocView, SubAllocator};
use crate::table::Table;
use crate::text::{dec_text, push_dec};
use crate::types::{AllocHints, DeviceProfile, RegionId, UbVa};
use vstd::prelude::*;
use vstd::string::*;

verus! {

/// Where a region lies.
#[derive(Debug, Clone, Copy)]
pub struct RegionPlacement {
    pub region_id: RegionId,
    pub home_node_id: u16,
    pub device_id: u16,
    pub mr_handle: u32,
    pub base_offset: u64,
    pub len: u64,
    pub requester_node_id: u16,
}

/// What a `Placer` holds.
#[verifier::ext_equal]
pub struct PlacerView {
    pub devices: Seq<DeviceProfile>,
    pub regions: Map<RegionId, RegionPlacement>,
    pub next_id: u64,
    /// The pools of the devices.
    pub pools: Map<(u16, u16), SubAllocView>,
}

/// The error of a device without pool.
pub open spec fn no_pool_text(key: (u16, u16)) -> Seq<char> {
    "no sub-allocator for device ("@ + dec_text(key.0 as nat) + ", "@ + dec_text(key.1 as nat)
        + ")"@
}

impl PlacerView {
    /// The device that a region goes to.
    pub open spec fn device(self, hints: AllocHints, scores: Seq<u64>) -> Option<(u16, u16)> {
        best(self.devices, scores, hints.pin, hints.size)
    }

    /// Why a region cannot be placed, if it cannot.
    pub open spec fn refusal(self, hints: AllocHints, scores: Seq<u64>) -> Option<Seq<char>> {
        match self.device(hints, scores) {
            None => Some("no suitable device found for placement"@),
            Some(key) => if !self.pools.contains_key(key) {
                Some(no_pool_text(key))
            } else if !self.pools[key].has_room(hints.size as nat) {
                Some("insufficient space in device pool"@)
            } else {
                None
            },
        }
    }

    /// Where a region is placed.
    pub open spec fn placement(
        self,
        id: RegionId,
        hints: AllocHints,
        requester: u16,
        mr_handle: u32,
        scores: Seq<u64>,
    ) -> RegionPlacement {
        let key = self.device(hints, scores)->0;
        RegionPlacement {
            region_id: id,
            home_node_id: key.0,
            device_id: key.1,
            mr_handle,
            base_offset: self.pools[key].next() as u64,
            len: hints.size,
            requester_node_id: requester,
        }
    }

    /// The placer after a region was placed.
    pub open spec fn placed(self, p: RegionPlacement) -> Self {
        let key = (p.home_node_id, p.device_id);
        PlacerView {
            devices: with_load(self.devices, key, p.len, 0),
            regions: self.regions.insert(p.region_id, p),
            pools: self.pools.insert(key, self.pools[key].after(p.len as nat)),
            ..self
        }
    }

    /// The placer after a region was given up.
    pub open spec fn freed(self, id: RegionId) -> Self {
        if self.regions.contains_key(id) {
            let p = self.regions[id];
            PlacerView {
                devices: with_load(self.devices, (p.home_node_id, p.device_id), 0, 0),
                regions: self.regions.remove(id),
                ..self
            }
        } else {
            self
        }
    }

    /// The placer after a region was placed under the next identifier.
    pub open spec fn placed_next(self, p: RegionPlacement) -> Self {
        PlacerView {
            next_id: if self.next_id == u64::MAX {
                0
            } else {
                (self.next_id + 1) as u64
            },
            ..self.placed(p)
        }
    }

    /// Whether `later` can have come of this placer: no pool has gone, the free part of none
    /// has moved back, and no identifier comes again.
    pub open spec fn leads_to(self, later: Self) -> bool {
        &&& self.next_id <= later.next_id
        &&& forall|key: (u16, u16)| #[trigger]
            self.pools.contains_key(key) ==> later.pools.contains_key(key)
                && self.pools[key].next() <= later.pools[key].next()
    }

    /// Every operation leads on: placing a region, giving one up, noting its memory region,
    /// setting up the pool of a device that has none, and changes of the devices.
    pub proof fn lemma_leads(
        self,
        p: RegionPlacement,
        id: RegionId,
        key: (u16, u16),
        pool: SubAllocView,
        devices: Seq<DeviceProfile>,
        regions: Map<RegionId, RegionPlacement>,
    )
        requires
            self.pools.contains_key((p.home_node_id, p.device_id)),
            !self.pools.contains_key(key),
        ensures
            self.next_id < u64::MAX ==> self.leads_to(self.placed_next(p)),
            self.leads_to(self.placed(p)),
            self.leads_to(self.freed(id)),
            self.leads_to(PlacerView { pools: self.pools.insert(key, pool), ..self }),
            self.leads_to(PlacerView { devices, regions, ..self }),
    {
    }

    /// What comes of what has come of a placer has come of the placer.
    pub proof fn lemma_leads_on(self, mid: Self, later: Self)
        requires
            self.leads_to(mid),
            mid.leads_to(later),
        ensures
            self.leads_to(later),
    {
        assert forall|key: (u16, u16)| #[trigger]
            self.pools.contains_key(key) implies later.pools.contains_key(key)
            && self.pools[key].next() <= later.pools[key].next() by {
            assert(mid.pools.contains_key(key));
        }
    }
}

impl PlacerView {
    /// A region that is placed fits: its device has room beside what is in use on it and is
    /// of the wanted kind, and it lies in the free part of the pool, with the length and for
    /// the node that were asked for.
    pub proof fn lemma_placed_fits(
        self,
        id: RegionId,
        hints: AllocHints,
        requester: u16,
        mr_handle: u32,
        scores: Seq<u64>,
    ) -> (i: int)
        requires
            self.refusal(hints, scores) is None,
        ensures
            0 <= i < self.devices.len(),
            hints.size == 0 || self.devices[i].capacity_bytes - self.devices[i].used_bytes
                >= hints.size,
            hints.pin matches Some(kind) ==> self.devices[i].kind == kind,
            ({
                let p = self.placement(id, hints, requester, mr_handle, scores);
                let key = (p.home_node_id, p.device_id);
                &&& key == self.devices[i].device_key
                &&& self.pools.contains_key(key)
                &&& p.base_offset == self.pools[key].base + self.pools[key].allocated
                &&& self.pools[key].allocated + p.len <= self.pools[key].total
                &&& p.len == hints.size
                &&& p.region_id == id
                &&& p.mr_handle == mr_handle
                &&& p.requester_node_id == requester
            }),
    {
        lemma_picked_has_room(self.devices, scores, hints.pin, hints.size)
    }

    /// A region is refused where no device has room for it and is of the wanted kind, where
    /// the device that is picked has no pool, or where its pool has too little left.
    pub proof fn lemma_refused(self, hints: AllocHints, scores: Seq<u64>, i: int)
        requires
            self.refusal(hints, scores) is Some,
            0 <= i < self.devices.len(),
        ensures
            match self.device(hints, scores) {
                None => self.devices[i].capacity_bytes - self.devices[i].used_bytes < hints.size || (
                hints.pin matches Some(kind) && self.devices[i].kind != kind),
                Some(key) => !self.pools.contains_key(key) || self.pools[key].allocated + hints.size
                    > self.pools[key].total || self.pools[key].base + self.pools[key].allocated
                    > u64::MAX,
            },
    {
        if self.device(hints, scores) is None {
            lemma_none_has_room(self.devices, scores, hints.pin, hints.size, i);
        }
    }

    /// Placing a region records it, takes its length from the pool of its device and sets
    /// the load of the device; other regions, pools and devices stay. Giving it up takes the
    /// record away and the load of the device back to nothing, but gives the pool nothing
    /// back.
    pub proof fn lemma_place_and_free(self, p: RegionPlacement, other: RegionId, i: int)
        requires
            other != p.region_id,
            0 <= i < self.devices.len(),
        ensures
            ({
                let key = (p.home_node_id, p.device_id);
                let after = self.placed(p);
                let gone = after.freed(p.region_id);
                &&& after.regions.contains_key(p.region_id) && after.regions[p.region_id] == p
                &&& after.regions.contains_key(other) == self.regions.contains_key(other)
                &&& after.regions[other] == self.regions[other]
                &&& after.pools[key].allocated == self.pools[key].allocated + p.len
                &&& self.devices[i].device_key == key ==> after.devices[i].used_bytes == p.len
                    && gone.devices[i].used_bytes == 0 && gone.devices[i].capacity_bytes
                    == self.devices[i].capacity_bytes && after.devices[i].recent_rps == 0
                    && gone.devices[i].recent_rps == 0
                &&& self.devices[i].device_key != key ==> after.devices[i] == self.devices[i]
                    && gone.devices[i] == self.devices[i]
                &&& !gone.regions.contains_key(p.region_id)
                &&& gone.regions[other] == self.regions[other]
                &&& gone.pools == after.pools
                &&& self.placed_next(p).regions == after.regions
                &&& self.next_id < u64::MAX ==> self.placed_next(p).next_id == self.next_id + 1
            }),
    {
    }
}

/// A region that was placed under the next identifier: on what placer, for whom, and where.
pub struct PlaceCall {
    pub before: PlacerView,
    pub hints: AllocHints,
    pub requester: u16,
    pub scores: Seq<u64>,
    pub placement: RegionPlacement,
}

impl PlaceCall {
    /// Whether the region can be placed, and lies where it is placed.
    pub open spec fn happened(self) -> bool {
        &&& self.before.refusal(self.hints, self.scores) is None
        &&& self.placement == self.before.placement(
            RegionId(self.before.next_id),
            self.hints,
            self.requester,
            0,
            self.scores,
        )
    }
}

/// Whether these are regions that were placed one after the other. In between the placer may
/// do anything but set up a pool anew, as long as there are identifiers left.
pub open spec fn in_turn(calls: Seq<PlaceCall>) -> bool {
    &&& forall|i: int|
        0 <= i < calls.len() ==> (#[trigger] calls[i]).happened() && calls[i].before.next_id
            < u64::MAX
    &&& forall|i: int|
        0 < i < calls.len() ==> calls[i - 1].before.placed_next(calls[i - 1].placement).leads_to(
            (#[trigger] calls[i]).before,
        )
}

/// A region that was placed ends where the free part of its pool begins.
proof fn lemma_placed_end(c: PlaceCall)
    requires
        c.happened(),
    ensures
        ({
            let p = c.placement;
            let key = (p.home_node_id, p.device_id);
            &&& c.before.pools.contains_key(key)
            &&& p.base_offset == c.before.pools[key].next()
            &&& p.base_offset + p.len == c.before.placed_next(p).pools[key].next()
        }),
{
}

/// Placing a region leads on.
proof fn lemma_call_leads(c: PlaceCall)
    requires
        c.happened(),
        c.before.next_id < u64::MAX,
    ensures
        c.before.leads_to(c.before.placed_next(c.placement)),
{
    lemma_placed_end(c);
}

/// What has come of a placer on which a region was placed leads to where a later one is.
proof fn lemma_turns_lead(calls: Seq<PlaceCall>, i: int, j: int)
    requires
        in_turn(calls),
        0 <= i < j < calls.len(),
    ensures
        calls[i].before.placed_next(calls[i].placement).leads_to(calls[j].before),
    decreases j - i,
{
    if i + 1 < j {
        lemma_turns_lead(calls, i, j - 1);
        let c = calls[j - 1];
        let a = calls[i].before.placed_next(calls[i].placement);
        let b = c.before.placed_next(c.placement);
        lemma_call_leads(c);
        a.lemma_leads_on(c.before, b);
        a.lemma_leads_on(b, calls[j].before);
    } else {
        assert(calls[j - 1].before.placed_next(calls[j - 1].placement).leads_to(calls[j].before));
    }
}

/// Of regions that were placed one after the other, whatever was done in between, each has
/// an identifier of its own and lies where it is recorded, with the length and for the node
/// that were asked for; and those on one device lie apart, a later one behind an earlier.
pub proof fn lemma_apart(calls: Seq<PlaceCall>, i: int, j: int)
    requires
        in_turn(calls),
        0 <= i < j < calls.len(),
    ensures
        ({
            let p = calls[i].placement;
            let q = calls[j].placement;
            &&& p.region_id != q.region_id
            &&& p.home_node_id == q.home_node_id && p.device_id == q.device_id ==> p.base_offset
                + p.len <= q.base_offset
            &&& p.len == calls[i].hints.size
            &&& p.requester_node_id == calls[i].requester
            &&& calls[i].before.placed_next(p).regions[p.region_id] == p
        }),
{
    lemma_turns_lead(calls, i, j);
    lemma_placed_end(calls[i]);
    lemma_placed_end(calls[j]);
    let p = calls[i].placement;
    assert(calls[i].before.placed_next(p).pools.contains_key((p.home_node_id, p.device_id)));
}

/// Node and device as a number.
spec fn slot(key: (u16, u16)) -> u128 {
    (key.0 * 0x1_0000 + key.1) as u128
}

fn pack(node_id: u16, device_id: u16) -> (r: u128)
    ensures
        r == slot((node_id, device_id)),
{
    node_id as u128 * 0x1_0000 + device_id as u128
}

/// Decides which device hosts a region, and where on it.
pub struct Placer {
    registry: DeviceRegistry,
    regions: Table<RegionPlacement>,
    next_region_id: u64,
    sub_allocators: Table<SubAllocator>,
}

impl View for Placer {
    type V = PlacerView;

    closed spec fn view(&self) -> PlacerView {
        PlacerView {
            devices: self.registry@,
            regions: Map::new(
                |k: RegionId| self.regions@.contains_key(k.0 as u128),
                |k: RegionId| self.regions@[k.0 as u128],
            ),
            next_id: self.next_region_id,
            pools: Map::new(
                |k: (u16, u16)| self.sub_allocators@.contains_key(slot(k)),
                |k: (u16, u16)| self.sub_allocators@[slot(k)]@,
            ),
        }
    }
}

impl Placer {
    pub closed spec fn wf(&self) -> bool {
        &&& self.registry.wf()
        &&& self.regions.wf()
        &&& self.sub_allocators.wf()
        &&& forall|k: u128| #[trigger]
            self.sub_allocators@.contains_key(k) ==> self.sub_allocators@[k].wf()
        &&& forall|k: u128| #[trigger]
            self.regions@.contains_key(k) ==> k == self.regions@[k].region_id.0
    }

    pub fn new(registry: DeviceRegistry) -> (r: Self)
        requires
            registry.wf(),
        ensures
            r.wf(),
            r@ == (PlacerView {
                devices: registry@,
                regions: Map::empty(),
                next_id: 1,
                pools: Map::empty(),
            }),
    {
        let r = Placer {
            registry,
            regions: Table::new(),
            next_region_id: 1,
            sub_allocators: Table::new(),
        };
        assert(r@ =~= PlacerView {
            devices: registry@,
            regions: Map::empty(),
            next_id: 1,
            pools: Map::empty(),
        });
        r
    }

    /// No more is given out of a pool than there is, and its bounds are numbers.
    pub proof fn lemma_pool(&self, key: (u16, u16))
        requires
            self.wf(),
            self@.pools.contains_key(key),
        ensures
            self@.pools[key].allocated <= self@.pools[key].total <= u64::MAX,
            self@.pools[key].base <= u64::MAX,
    {
        assert(self.sub_allocators@.contains_key(slot(key)));
        self.sub_allocators@[slot(key)].lemma_wf();
    }

    /// The devices.
    pub fn registry(&self) -> (r: &DeviceRegistry)
        requires
            self.wf(),
        ensures
            r.wf(),
            r@ == self@.devices,
    {
        &self.registry
    }

    /// Adds a device, or replaces it.
    pub fn register_device(&mut self, profile: DeviceProfile)
        requires
            old(self).wf(),
        ensures
            final(self).wf(),
            final(self)@ == (PlacerView {
                devices: crate::registry::with_profile(old(self)@.devices, profile),
                ..old(self)@
            }),
    {
        self.registry.register(profile);
        assert(self@.regions =~= old(self)@.regions);
        assert(self@.pools =~= old(self)@.pools);
    }

    /// Removes the devices of a node.
    pub fn remove_node(&mut self, node_id: u16)
        requires
            old(self).wf(),
        ensures
            final(self).wf(),
            final(self)@ == (PlacerView {
                devices: old(self)@.devices.filter(
                    |p: DeviceProfile| p.device_key.0 != node_id,
                ),
                ..old(self)@
            }),
    {
        self.registry.remove_node(node_id);
        assert(self@.regions =~= old(self)@.regions);
        assert(self@.pools =~= old(self)@.pools);
    }

    /// Sets the pool of a device up.
    pub fn register_sub_allocator(&mut self, node_id: u16, device_id: u16, allocator: SubAllocator)
        requires
            old(self).wf(),
            allocator.wf(),
        ensures
            final(self).wf(),
            final(self)@ == (PlacerView {
                pools: old(self)@.pools.insert((node_id, device_id), allocator@),
                ..old(self)@
            }),
    {
        self.sub_allocators.insert(pack(node_id, device_id), allocator);
        assert(self@.regions =~= old(self)@.regions);
        assert(self@.pools =~= old(self)@.pools.insert((node_id, device_id), allocator@));
    }

    /// Takes space on the best device.
    fn reserve(&mut self, hints: &AllocHints, scores: &Vec<u64>) -> (r: Result<
        ((u16, u16), u64),
        String,
    >)
        requires
            old(self).wf(),
            scores@.len() == old(self)@.devices.len(),
        ensures
            final(self).wf(),
            match r {
                Ok((key, offset)) => {
                    &&& old(self)@.refusal(*hints, scores@) is None
                    &&& old(self)@.device(*hints, scores@) == Some(key)
                    &&& offset == old(self)@.pools[key].next()
                    &&& final(self)@ == (PlacerView {
                        pools: old(self)@.pools.insert(
                            key,
                            old(self)@.pools[key].after(hints.size as nat),
                        ),
                        ..old(self)@
                    })
                },
                Err(t) => old(self)@.refusal(*hints, scores@) == Some(t@) && final(self)@
                    == old(self)@,
            },
    {
        let key = match self.registry.best_device(scores, hints.pin, hints.size) {
            Some(k) => k,
            None => return Err(String::from_str("no suitable device found for placement")),
        };
        let k: u128 = pack(key.0, key.1);
        if !self.sub_allocators.contains(k) {
            let mut text = String::from_str("no sub-allocator for device (");
            push_dec(&mut text, key.0 as u64);
            text.append(", ");
            push_dec(&mut text, key.1 as u64);
            text.append(")");
            return Err(text);
        }
        let mut got: Option<u64> = None;
        match self.sub_allocators.get_mut(k) {
            Some(a) => {
                got = a.allocate(hints.size);
            },
            None => {},
        }
        assert(self@.regions =~= old(self)@.regions);
        match got {
            Some(offset) => {
                assert(self@.pools =~= old(self)@.pools.insert(
                    key,
                    old(self)@.pools[key].after(hints.size as nat),
                ));
                Ok((key, offset))
            },
            None => {
                assert(self@.pools =~= old(self)@.pools);
                Err(String::from_str("insufficient space in device pool"))
            },
        }
    }

    fn record(&mut self, p: RegionPlacement)
        requires
            old(self).wf(),
        ensures
            final(self).wf(),
            final(self)@ == (PlacerView {
                devices: with_load(
                    old(self)@.devices,
                    (p.home_node_id, p.device_id),
                    p.len,
                    0,
                ),
                regions: old(self)@.regions.insert(p.region_id, p),
                ..old(self)@
            }),
    {
        self.regions.insert(p.region_id.0 as u128, p);
        self.registry.update_dynamic(p.home_node_id, p.device_id, p.len, 0);
        assert(self@.regions =~= old(self)@.regions.insert(p.region_id, p));
        assert(self@.pools =~= old(self)@.pools);
    }

    /// Places a region under the next identifier. There is one score for each device, as
    /// listed by the registry.
    pub fn place(&mut self, hints: &AllocHints, requester_node_id: u16, scores: &Vec<u64>) -> (r:
        Result<(UbVa, RegionPlacement), String>)
        requires
            old(self).wf(),
            scores@.len() == old(self)@.devices.len(),
        ensures
            final(self).wf(),
            match r {
                Ok((va, p)) => {
                    let id = RegionId(old(self)@.next_id);
                    &&& old(self)@.refusal(*hints, scores@) is None
                    &&& p == old(self)@.placement(id, *hints, requester_node_id, 0, scores@)
                    &&& p.base_offset == old(self)@.pools[(p.home_node_id, p.device_id)].next()
                    &&& va.spec_region() == id
                    &&& va.spec_offset() == 0
                    &&& final(self)@ == old(self)@.placed_next(p)
                },
                Err(t) => old(self)@.refusal(*hints, scores@) == Some(t@) && final(self)@
                    == old(self)@,
            },
    {
        let (key, base_offset) = match self.reserve(hints, scores) {
            Ok(x) => x,
            Err(t) => return Err(t),
        };
        let region_id = RegionId(self.next_region_id);
        self.next_region_id = if region_id.0 == u64::MAX {
            0
        } else {
            region_id.0 + 1
        };
        let placement = RegionPlacement {
            region_id,
            home_node_id: key.0,
            device_id: key.1,
            mr_handle: 0,
            base_offset,
            len: hints.size,
            requester_node_id,
        };
        self.record(placement);
        Ok((UbVa::new(region_id, 0), placement))
    }

    /// Places a region under the given identifier.
    pub fn place_with_id(
        &mut self,
        region_id: RegionId,
        hints: &AllocHints,
        requester_node_id: u16,
        mr_handle: u32,
        scores: &Vec<u64>,
    ) -> (r: Result<(UbVa, RegionPlacement), String>)
        requires
            old(self).wf(),
            scores@.len() == old(self)@.devices.len(),
        ensures
            final(self).wf(),
            match r {
                Ok((va, p)) => {
                    &&& old(self)@.refusal(*hints, scores@) is None
                    &&& p == old(self)@.placement(
                        region_id,
                        *hints,
                        requester_node_id,
                        mr_handle,
                        scores@,
                    )
                    &&& p.base_offset == old(self)@.pools[(p.home_node_id, p.device_id)].next()
                    &&& va.spec_region() == region_id
                    &&& va.spec_offset() == 0
                    &&& final(self)@ == old(self)@.placed(p)
                },
                Err(t) => old(self)@.refusal(*hints, scores@) == Some(t@) && final(self)@
                    == old(self)@,
            },
    {
        let (key, base_offset) = match self.reserve(hints, scores) {
            Ok(x) => x,
            Err(t) => return Err(t),
        };
        let placement = RegionPlacement {
            region_id,
            home_node_id: key.0,
            device_id: key.1,
            mr_handle,
            base_offset,
            len: hints.size,
            requester_node_id,
        };
        self.record(placement);
        Ok((UbVa::new(region_id, 0), placement))
    }

    /// Gives a region up. Its space is not used again.
    pub fn free(&mut self, region_id: RegionId) -> (r: Option<RegionPlacement>)
        requires
            old(self).wf(),
        ensures
            final(self).wf(),
            final(self)@ == old(self)@.freed(region_id),
            r == (if old(self)@.regions.contains_key(region_id) {
                Some(old(self)@.regions[region_id])
            } else {
                None
            }),
    {
        let p = match self.regions.remove(region_id.0 as u128) {
            Some(p) => p,
            None => return None,
        };
        assert(self@.regions =~= old(self)@.regions.remove(region_id));
        let ghost mid = *self;
        match self.sub_allocators.get_mut(pack(p.home_node_id, p.device_id)) {
            Some(a) => {
                a.free(p.base_offset, p.len);
            },
            None => {},
        }
        self.registry.update_dynamic(p.home_node_id, p.device_id, 0, 0);
        assert(self@.regions =~= mid@.regions);
        assert(self@.pools =~= old(self)@.pools);
        Some(p)
    }

    /// Where a region lies.
    pub fn lookup(&self, region_id: RegionId) -> (r: Option<RegionPlacement>)
        requires
            self.wf(),
        ensures
            r == (if self@.regions.contains_key(region_id) {
                Some(self@.regions[region_id])
            } else {
                None
            }),
    {
        match self.regions.get(region_id.0 as u128) {
            Some(p) => Some(*p),
            None => None,
        }
    }

    /// Sets the memory region that a region lies in. Returns whether the region is known.
    pub fn set_mr_handle(&mut self, region_id: RegionId, mr_handle: u32) -> (r: bool)
        requires
            old(self).wf(),
        ensures
            final(self).wf(),
            r == old(self)@.regions.contains_key(region_id),
            final(self)@ == (if r {
                PlacerView {
                    regions: old(self)@.regions.insert(
                        region_id,
                        RegionPlacement { mr_handle, ..old(self)@.regions[region_id] },
                    ),
                    ..old(self)@
                }
            } else {
                old(self)@
            }),
    {
        let found = match self.regions.get_mut(region_id.0 as u128) {
            Some(p) => {
                p.mr_handle = mr_handle;
                true
            },
            None => false,
        };
        proof {
            if found {
                assert(self@.regions =~= old(self)@.regions.insert(
                    region_id,
                    RegionPlacement { mr_handle, ..old(self)@.regions[region_id] },
                ));
            } else {
                assert(self@.regions =~= old(self)@.regions);
            }
            assert(self@.pools =~= old(self)@.pools);
        }
        found
    }

    /// Where every region lies, in no particular order.
    pub fn list(&self) -> (r: Vec<RegionPlacement>)
        requires
            self.wf(),
        ensures
            forall|i: int|
                0 <= i < r@.len() ==> self@.regions.contains_key((#[trigger] r@[i]).region_id)
                    && self@.regions[r@[i].region_id] == r@[i],
            forall|id: RegionId| #[trigger]
                self@.regions.contains_key(id) ==> exists|i: int|
                    0 <= i < r@.len() && #[trigger] r@[i] == self@.regions[id],
            forall|i: int, j: int|
                0 <= i < j < r@.len() ==> (#[trigger] r@[i]).region_id != (
                #[trigger] r@[j]).region_id,
    {
        let n: usize = self.regions.len();
        let mut out: Vec<RegionPlacement> = Vec::new();
        let mut i: usize = 0;
        proof {
            self.regions.lemma_positions();
        }
        while i < n
            invariant
                i <= n,
                n == self.regions.key_seq().len(),
                n == self.regions.val_seq().len(),
                self.wf(),
                out@ == self.regions.val_seq().take(i as int),
            decreases n - i,
        {
            out.push(*self.regions.val_at(i));
            assert(out@ =~= self.regions.val_seq().take(i + 1));
            i = i + 1;
        }
        proof {
            self.regions.lemma_positions();
            let keys = self.regions.key_seq();
            assert(out@ =~= self.regions.val_seq());
            assert forall|i: int| 0 <= i < out@.len() implies self@.regions.contains_key(
                (#[trigger] out@[i]).region_id,
            ) && self@.regions[out@[i].region_id] == out@[i] by {
                assert(self.regions@.contains_key(keys[i]));
            }
            assert forall|id: RegionId| #[trigger] self@.regions.contains_key(id) implies exists|
                i: int,
            | 0 <= i < out@.len() && #[trigger] out@[i] == self@.regions[id] by {
                let k = id.0 as u128;
                assert(self.regions@.contains_key(k));
                let i = choose|i: int|
                    0 <= i < keys.len() && keys[i] == k && self.regions.val_seq()[i]
                        == self.regions@[k];
                assert(out@[i] == self@.regions[id]);
            }
            assert forall|i: int, j: int| 0 <= i < j < out@.len() implies (
            #[trigger] out@[i]).region_id != (#[trigger] out@[j]).region_id by {
                assert(self.regions@.contains_key(keys[i]) && self.regions@.contains_key(keys[j]));
                assert(keys[i] != keys[j]);
            }
        }
        out
    }
}

} // verus!
