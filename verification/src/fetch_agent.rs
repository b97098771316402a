//! Reading remote regions through the local cache.
use crate::cache_pool::{CachePool, PoolView};
use crate::region::{with_epoch, with_state, RegionTable, Regions};
use crate::types::{RegionId, RegionInfo, RegionState};
use vstd::prelude::*;

verus! {

/// The outcome of a read.
#[derive(Debug, Clone, Copy)]
pub enum ReadVaResult {
    /// The region is at home here: read it in place.
    Home(RegionInfo),
    /// The region is cached, at the given offset of the pool.
    CacheHit(u64, RegionInfo),
    /// The region has to be fetched from its home.
    CacheMiss(RegionInfo),
    /// The region is not known.
    UnknownRegion,
}

/// Whether a region is another one than the given one.
pub open spec fn other_than(id: RegionId) -> spec_fn(RegionId) -> bool {
    |other: RegionId| other != id
}

/// What a `FetchAgent` holds.
#[verifier::ext_equal]
pub struct AgentView {
    pub regions: Regions,
    pub cache: PoolView,
    /// Regions that are being fetched.
    pub in_flight: Seq<RegionId>,
}

impl AgentView {
    /// Whether a read would use a cached copy: the region is shared, and cached.
    pub open spec fn is_cached(self, id: RegionId) -> bool {
        self.regions.contains_key(id) && self.regions[id].state is Shared
            && self.cache.entries.contains_key(id)
    }

    /// Whether the cached copy is older than what is known of the region.
    pub open spec fn is_outdated(self, id: RegionId) -> bool {
        self.regions[id].state matches RegionState::Shared(epoch)
            && self.cache.entries[id].epoch < epoch
    }

    /// What a read finds.
    pub open spec fn read(self, id: RegionId) -> ReadVaResult {
        if !self.regions.contains_key(id) {
            ReadVaResult::UnknownRegion
        } else if self.regions[id].state is Home {
            ReadVaResult::Home(self.regions[id])
        } else if self.is_cached(id) && self.is_outdated(id) {
            ReadVaResult::CacheMiss(RegionInfo { state: RegionState::Invalid, ..self.regions[id] })
        } else if self.is_cached(id) {
            ReadVaResult::CacheHit(self.cache.entries[id].pool_offset, self.regions[id])
        } else {
            ReadVaResult::CacheMiss(self.regions[id])
        }
    }

    /// The agent after a read. An outdated copy is dropped.
    pub open spec fn after_read(self, id: RegionId) -> Self {
        if self.is_cached(id) {
            let used = AgentView { cache: self.cache.after_use(id), ..self };
            if self.is_outdated(id) {
                used.dropped(id)
            } else {
                used
            }
        } else {
            self
        }
    }

    /// The agent with a region invalid and no longer cached.
    pub open spec fn dropped(self, id: RegionId) -> Self {
        AgentView {
            regions: with_state(self.regions, id, RegionState::Invalid),
            cache: self.cache.without(id),
            ..self
        }
    }

    /// Whether a fetched region can be cached: there is room in the pool once others have
    /// made room.
    pub open spec fn can_cache(self, len: u64) -> bool {
        let p = self.cache.after_evictions(len);
        p.used + len <= p.max && p.pool.has_room(len as nat)
    }

    /// The agent after a region was fetched and cached.
    pub open spec fn fetched(self, id: RegionId, len: u64, epoch: u64) -> Self {
        AgentView {
            regions: with_epoch(
                with_state(
                    self.cache.regions_after(self.regions, len),
                    id,
                    RegionState::Shared(epoch),
                ),
                id,
                epoch,
            ),
            cache: self.cache.after_evictions(len).added(id, len, epoch),
            in_flight: self.in_flight.filter(other_than(id)),
        }
    }

    /// Whether the home's notice that a region has changed concerns a copy here.
    pub open spec fn heeds(self, id: RegionId, new_epoch: u64) -> bool {
        self.regions.contains_key(id) && (self.regions[id].state matches RegionState::Shared(epoch)
            && new_epoch >= epoch)
    }

    /// The agent after the home's notice that a region has changed.
    pub open spec fn notified(self, id: RegionId, new_epoch: u64) -> Self {
        if self.heeds(id, new_epoch) {
            let d = self.dropped(id);
            AgentView { regions: with_epoch(d.regions, id, new_epoch), ..d }
        } else if self.regions.contains_key(id) && self.regions[id].state is Invalid && new_epoch
            > self.regions[id].epoch {
            AgentView { regions: with_epoch(self.regions, id, new_epoch), ..self }
        } else {
            self
        }
    }

    /// The agent with a region listed as being fetched.
    pub open spec fn marked(self, id: RegionId) -> Self {
        if self.in_flight.contains(id) {
            self
        } else {
            AgentView { in_flight: self.in_flight.push(id), ..self }
        }
    }

    /// A region is listed as being fetched once however often it is asked for, until it has
    /// come. Other regions stay listed.
    pub proof fn lemma_one_fetch(self, id: RegionId, len: u64, epoch: u64)
        requires
            self.in_flight.no_duplicates(),
        ensures
            self.marked(id).in_flight.contains(id),
            self.marked(id).in_flight.no_duplicates(),
            self.marked(id).marked(id) == self.marked(id),
            !self.fetched(id, len, epoch).in_flight.contains(id),
            self.fetched(id, len, epoch).in_flight.no_duplicates(),
            forall|other: RegionId|
                other != id ==> (#[trigger] self.fetched(id, len, epoch).in_flight.contains(other)
                    <==> self.in_flight.contains(other)),
    {
        if !self.in_flight.contains(id) {
            assert(self.marked(id).in_flight[self.in_flight.len() as int] == id);
        }
        lemma_without_one(self.in_flight, id);
    }

    /// What a read finds: a region at home is read in place, a shared one from its copy
    /// where there is one that is not older than what is known of the region, and any other
    /// has to be fetched.
    pub proof fn lemma_read_finds(self, id: RegionId)
        ensures
            match self.read(id) {
                ReadVaResult::UnknownRegion => !self.regions.contains_key(id),
                ReadVaResult::Home(info) => self.regions.contains_key(id) && info
                    == self.regions[id] && info.state is Home,
                ReadVaResult::CacheHit(offset, info) => {
                    &&& self.regions.contains_key(id)
                    &&& info == self.regions[id]
                    &&& self.cache.entries.contains_key(id)
                    &&& offset == self.cache.entries[id].pool_offset
                    &&& info.state matches RegionState::Shared(epoch)
                    &&& epoch <= self.cache.entries[id].epoch
                },
                ReadVaResult::CacheMiss(info) => {
                    &&& self.regions.contains_key(id)
                    &&& info.region_id == self.regions[id].region_id
                    &&& match self.regions[id].state {
                        RegionState::Home => false,
                        RegionState::Invalid => info == self.regions[id],
                        RegionState::Shared(epoch) => if self.cache.entries.contains_key(id) {
                            self.cache.entries[id].epoch < epoch && info.state is Invalid
                        } else {
                            info == self.regions[id]
                        },
                    }
                },
            },
    {
    }

    /// A hit keeps the copy: the next read hits it again, at the same place. A read that
    /// finds no outdated copy keeps what is cached and what is known of every region.
    pub proof fn lemma_hit_keeps(self, id: RegionId)
        requires
            self.cache.clock < u64::MAX,
        ensures
            self.read(id) matches ReadVaResult::CacheHit(offset, info) ==> self.after_read(id).read(
                id,
            ) == ReadVaResult::CacheHit(offset, info),
            !(self.read(id) matches ReadVaResult::CacheMiss(info)
                && self.cache.entries.contains_key(id) && self.regions[id].state is Shared) ==> {
                &&& self.after_read(id).cache.entries.dom() == self.cache.entries.dom()
                &&& self.after_read(id).regions == self.regions
                &&& self.after_read(id).cache.used == self.cache.used
            },
            self.after_read(id).in_flight == self.in_flight,
    {
        assert(self.read(id) is CacheHit ==> self.after_read(id).cache.entries.dom()
            =~= self.cache.entries.dom());
    }

    /// An outdated copy is dropped by the read that finds it, and the region becomes invalid.
    pub proof fn lemma_outdated_goes(self, id: RegionId, epoch: u64)
        requires
            self.cache.clock < u64::MAX,
            self.regions.contains_key(id),
            self.regions[id].state == RegionState::Shared(epoch),
            self.cache.entries.contains_key(id),
            self.cache.entries[id].epoch < epoch,
        ensures
            !self.after_read(id).cache.entries.contains_key(id),
            self.after_read(id).regions[id].state is Invalid,
            self.after_read(id).regions[id].epoch == self.regions[id].epoch,
            self.after_read(id).read(id) == self.read(id),
    {
    }

    /// Reading, dropping or hearing of one region takes nothing from another: what a read
    /// of the other finds is the same before and after.
    pub proof fn lemma_reads_apart(self, id: RegionId, other: RegionId, new_epoch: u64)
        requires
            other != id,
        ensures
            self.after_read(other).read(id) == self.read(id),
            self.dropped(other).read(id) == self.read(id),
            self.notified(other, new_epoch).read(id) == self.read(id),
            self.marked(other).read(id) == self.read(id),
    {
    }

    /// A fetch leaves the copies that did not have to make room for it: they are read as
    /// before.
    pub proof fn lemma_fetch_keeps_others(self, id: RegionId, other: RegionId, len: u64, epoch: u64)
        requires
            self.cache.wf(),
            other != id,
            !self.cache.evictions(len).contains(id),
        ensures
            self.fetched(other, len, epoch).read(id) == self.read(id),
            self.cache.used + len <= self.cache.max ==> !self.cache.evictions(len).contains(id),
    {
        self.cache.lemma_evicted_is_gone(len, id);
        crate::cache_pool::lemma_invalidated(self.regions, self.cache.evictions(len), id);
    }

    /// A fetched region is cached exactly where, once others have made room, its bytes fit
    /// both the limit and the rest of the pool.
    pub proof fn lemma_caches_iff_fits(self, len: u64)
        requires
            self.cache.wf(),
            self.cache.pool.base + self.cache.pool.total <= u64::MAX,
            self.cache.pool.allocated <= self.cache.pool.total,
        ensures
            self.can_cache(len) <==> self.cache.after_evictions(len).used + len <= self.cache.max
                && self.cache.pool.allocated + len <= self.cache.pool.total,
    {
        self.cache.lemma_after_evictions(len);
    }

    /// A fetched region is cached where the bytes that are used and the new ones fit the
    /// limit, and the pool has that many left: then nothing has to make room.
    pub proof fn lemma_caches_where_room(self, len: u64)
        requires
            self.cache.wf(),
            self.cache.used + len <= self.cache.max,
            self.cache.pool.allocated + len <= self.cache.pool.total,
            self.cache.pool.base + self.cache.pool.total <= u64::MAX,
        ensures
            self.can_cache(len),
            self.cache.after_evictions(len) == self.cache,
    {
        self.cache.lemma_no_needless_eviction(len);
    }

    /// A notice leaves a region at home and a copy that is newer than it; of an invalid
    /// region it only raises the epoch.
    pub proof fn lemma_notice_passes(self, id: RegionId, new_epoch: u64)
        requires
            self.regions.contains_key(id),
        ensures
            match self.regions[id].state {
                RegionState::Home => self.notified(id, new_epoch) == self && !self.heeds(
                    id,
                    new_epoch,
                ),
                RegionState::Shared(epoch) => new_epoch < epoch ==> self.notified(id, new_epoch)
                    == self && !self.heeds(id, new_epoch),
                RegionState::Invalid => {
                    &&& !self.heeds(id, new_epoch)
                    &&& self.notified(id, new_epoch).cache == self.cache
                    &&& self.notified(id, new_epoch).regions[id].state is Invalid
                    &&& self.notified(id, new_epoch).regions[id].epoch == (if new_epoch
                        > self.regions[id].epoch {
                        new_epoch
                    } else {
                        self.regions[id].epoch
                    })
                },
            },
    {
    }

    /// A known region that was fetched is read from the cache, where it was put, at the
    /// epoch that was fetched.
    pub proof fn lemma_hit_after_fetch(self, id: RegionId, len: u64, epoch: u64)
        requires
            self.cache.wf(),
            self.regions.contains_key(id),
            self.can_cache(len),
        ensures
            self.fetched(id, len, epoch).read(id) matches ReadVaResult::CacheHit(offset, info)
                && offset == self.cache.after_evictions(len).pool.next() && info.state
                == RegionState::Shared(epoch) && info.epoch == epoch,
    {
        lemma_invalidated_keeps(self.regions, self.cache.evictions(len), id);
    }

    /// A copy that the home's notice concerned is not read any more: the next read misses.
    pub proof fn lemma_miss_after_notice(self, id: RegionId, epoch: u64, new_epoch: u64)
        requires
            self.regions.contains_key(id),
            self.regions[id].state == RegionState::Shared(epoch),
            new_epoch >= epoch,
        ensures
            self.heeds(id, new_epoch),
            self.notified(id, new_epoch).read(id) matches ReadVaResult::CacheMiss(info) && info.state
                is Invalid && info.epoch == new_epoch,
            !self.notified(id, new_epoch).cache.entries.contains_key(id),
    {
    }

    /// A read never returns a copy that is older than what is known of the region.
    pub proof fn lemma_no_stale_hit(self, id: RegionId)
        ensures
            self.read(id) is CacheHit ==> (self.regions[id].state matches RegionState::Shared(epoch)
                && self.cache.entries[id].epoch >= epoch),
            self.is_cached(id) && self.is_outdated(id) ==> !self.after_read(id).is_cached(id),
    {
    }
}

/// What is left of a list without a region.
proof fn lemma_without_one(ids: Seq<RegionId>, id: RegionId)
    requires
        ids.no_duplicates(),
    ensures
        ids.filter(other_than(id)).no_duplicates(),
        forall|x: RegionId| #[trigger]
            ids.filter(other_than(id)).contains(x) <==> ids.contains(x) && x != id,
    decreases ids.len(),
{
    reveal(Seq::filter);
    if ids.len() > 0 {
        let rest = ids.drop_last();
        let last = ids.last();
        let a = rest.filter(other_than(id));
        let b = ids.filter(other_than(id));
        lemma_without_one(rest, id);
        assert forall|x: RegionId| ids.contains(x) <==> rest.contains(x) || x == last by {
            if ids.contains(x) && x != last {
                let p = choose|p: int| 0 <= p < ids.len() && ids[p] == x;
                assert(rest[p] == x);
            }
            if rest.contains(x) {
                let p = choose|p: int| 0 <= p < rest.len() && rest[p] == x;
                assert(ids[p] == x);
            }
            assert(ids[ids.len() - 1] == last);
        }
        assert(!rest.contains(last)) by {
            if rest.contains(last) {
                let p = choose|p: int| 0 <= p < rest.len() && rest[p] == last;
                assert(ids[p] == ids[ids.len() - 1]);
            }
        }
        if last != id {
            assert(b == a.push(last));
            assert forall|x: RegionId| b.contains(x) <==> a.contains(x) || x == last by {
                if a.contains(x) {
                    let p = choose|p: int| 0 <= p < a.len() && a[p] == x;
                    assert(b[p] == x);
                }
                assert(b[a.len() as int] == last);
            }
            assert(!a.contains(last));
        }
    }
}

/// Making regions invalid keeps them known.
proof fn lemma_invalidated_keeps(m: Regions, ids: Seq<RegionId>, id: RegionId)
    ensures
        crate::cache_pool::invalidated(m, ids).contains_key(id) == m.contains_key(id),
    decreases ids.len(),
{
    if ids.len() > 0 {
        lemma_invalidated_keeps(with_state(m, ids[0], RegionState::Invalid), ids.skip(1), id);
    }
}

/// Reads remote regions through the cache.
pub struct FetchAgent {
    pub region_table: RegionTable,
    pub cache_pool: CachePool,
    pub in_flight: Vec<RegionId>,
}

impl View for FetchAgent {
    type V = AgentView;

    open spec fn view(&self) -> AgentView {
        AgentView {
            regions: self.region_table@,
            cache: self.cache_pool@,
            in_flight: self.in_flight@,
        }
    }
}

impl FetchAgent {
    pub open spec fn wf(&self) -> bool {
        self.region_table.wf() && self.cache_pool.wf()
    }

    pub fn new(region_table: RegionTable, cache_pool: CachePool) -> (r: Self)
        requires
            region_table.wf(),
            cache_pool.wf(),
        ensures
            r.wf(),
            r@ == (AgentView {
                regions: region_table@,
                cache: cache_pool@,
                in_flight: Seq::empty(),
            }),
    {
        let r = FetchAgent { region_table, cache_pool, in_flight: Vec::new() };
        assert(r@.in_flight =~= Seq::empty());
        r
    }

    /// Reads a region through the cache. On a miss, the region is to be fetched from its
    /// home.
    pub fn read_va(&mut self, region_id: RegionId) -> (r: ReadVaResult)
        requires
            old(self).wf(),
            old(self)@.cache.clock < u64::MAX,
        ensures
            final(self).wf(),
            r == old(self)@.read(region_id),
            final(self)@ == old(self)@.after_read(region_id),
    {
        let region = match self.region_table.lookup(region_id) {
            Some(r) => r,
            None => return ReadVaResult::UnknownRegion,
        };
        match region.state {
            RegionState::Home => ReadVaResult::Home(region),
            RegionState::Shared(region_epoch) => match self.cache_pool.lookup(region_id) {
                Some(entry) => {
                    if entry.epoch < region_epoch {
                        self.invalidate_local(region_id);
                        return ReadVaResult::CacheMiss(
                            RegionInfo { state: RegionState::Invalid, ..region },
                        );
                    }
                    ReadVaResult::CacheHit(entry.pool_offset, region)
                },
                None => ReadVaResult::CacheMiss(region),
            },
            RegionState::Invalid => ReadVaResult::CacheMiss(region),
        }
    }

    /// Takes in a fetched region: caches it and marks it as shared. Returns its offset in
    /// the pool.
    pub fn complete_fetch(&mut self, region_id: RegionId, len: u64, epoch: u64) -> (r: Result<
        u64,
        String,
    >)
        requires
            old(self).wf(),
            old(self)@.cache.clock < u64::MAX,
        ensures
            final(self).wf(),
            match r {
                Ok(offset) => {
                    &&& old(self)@.can_cache(len)
                    &&& offset == old(self)@.cache.after_evictions(len).pool.next()
                    &&& final(self)@ == old(self)@.fetched(region_id, len, epoch)
                },
                Err(t) => {
                    let p = old(self)@.cache.after_evictions(len);
                    &&& !old(self)@.can_cache(len)
                    &&& final(self)@ == (AgentView {
                        regions: old(self)@.cache.regions_after(old(self)@.regions, len),
                        cache: p,
                        ..old(self)@
                    })
                    &&& t@ == (if p.used + len > p.max {
                        "cache pool full, cannot evict enough space"@
                    } else {
                        "sub-allocator exhausted"@
                    })
                },
            },
    {
        let entry = match self.cache_pool.insert(region_id, len, epoch, &mut self.region_table) {
            Ok(e) => e,
            Err(t) => return Err(t),
        };
        self.region_table.set_state(region_id, RegionState::Shared(epoch));
        self.region_table.set_epoch(region_id, epoch);
        let mut rest: Vec<RegionId> = Vec::new();
        let ghost all = self.in_flight@;
        let ghost other = other_than(region_id);
        let mut i: usize = 0;
        proof {
            reveal(Seq::filter);
            assert(all.take(0) =~= Seq::empty());
        }
        while i < self.in_flight.len()
            invariant
                i <= self.in_flight@.len(),
                all == self.in_flight@,
                other == other_than(region_id),
                rest@ == all.take(i as int).filter(other),
            decreases self.in_flight@.len() - i,
        {
            proof {
                reveal(Seq::filter);
                assert(all.take(i + 1).drop_last() =~= all.take(i as int));
                assert(all.take(i + 1).last() == all[i as int]);
            }
            if self.in_flight[i] != region_id {
                rest.push(self.in_flight[i]);
            }
            i = i + 1;
        }
        assert(all.take(i as int) =~= all);
        self.in_flight = rest;
        Ok(entry.pool_offset)
    }

    /// Drops the local copy of a region and marks it as invalid. Returns whether the region
    /// is known.
    pub fn invalidate_local(&mut self, region_id: RegionId) -> (r: bool)
        requires
            old(self).wf(),
        ensures
            final(self).wf(),
            r == old(self)@.regions.contains_key(region_id),
            final(self)@ == old(self)@.dropped(region_id),
    {
        self.cache_pool.remove(region_id);
        self.region_table.set_state(region_id, RegionState::Invalid)
    }

    /// Whether a region is being fetched.
    pub fn is_fetch_in_flight(&self, region_id: RegionId) -> (r: bool)
        ensures
            r == self@.in_flight.contains(region_id),
    {
        let mut i: usize = 0;
        while i < self.in_flight.len()
            invariant
                i <= self.in_flight@.len(),
                forall|j: int| 0 <= j < i ==> #[trigger] self.in_flight@[j] != region_id,
            decreases self.in_flight@.len() - i,
        {
            if self.in_flight[i] == region_id {
                assert(self.in_flight@[i as int] == region_id);
                return true;
            }
            i = i + 1;
        }
        false
    }

    /// Takes note that a region is being fetched.
    pub fn mark_fetch_in_flight(&mut self, region_id: RegionId)
        requires
            old(self).wf(),
        ensures
            final(self).wf(),
            final(self)@ == old(self)@.marked(region_id),
    {
        if !self.is_fetch_in_flight(region_id) {
            self.in_flight.push(region_id);
        }
    }

    pub fn cache_pool(&self) -> (r: &CachePool)
        ensures
            *r == self.cache_pool,
    {
        &self.cache_pool
    }

    /// Heeds the home's notice that a region has changed. Returns whether a copy here was
    /// invalidated.
    pub fn receive_invalidate(&mut self, region_id: RegionId, new_epoch: u64) -> (r: bool)
        requires
            old(self).wf(),
        ensures
            final(self).wf(),
            r == old(self)@.heeds(region_id, new_epoch),
            final(self)@ == old(self)@.notified(region_id, new_epoch),
    {
        let region = match self.region_table.lookup(region_id) {
            Some(r) => r,
            None => return false,
        };
        match region.state {
            RegionState::Shared(current_epoch) => {
                if new_epoch >= current_epoch {
                    self.invalidate_local(region_id);
                    self.region_table.set_epoch(region_id, new_epoch);
                    true
                } else {
                    false
                }
            },
            RegionState::Home => false,
            RegionState::Invalid => {
                if new_epoch > region.epoch {
                    self.region_table.set_epoch(region_id, new_epoch);
                }
                false
            },
        }
    }

    /// Whether a shared region is older than the given epoch.
    pub fn is_epoch_stale(&self, region_id: RegionId, latest_epoch: u64) -> (r: bool)
        requires
            self.wf(),
        ensures
            r == (self@.regions.contains_key(region_id) && (self@.regions[region_id].state matches
                RegionState::Shared(epoch) && epoch < latest_epoch)),
    {
        match self.region_table.lookup(region_id) {
            Some(region) => match region.state {
                RegionState::Shared(epoch) => epoch < latest_epoch,
                _ => false,
            },
            None => false,
        }
    }
}

} // verus!
