//! Local copies of remote regions.
use crate::region::{with_state, RegionTable, Regions};
use crate::sub_alloc::{SubAllocView, SubAllocator};
use crate::table::Table;
use crate::types::{RegionId, RegionState};
use vstd::prelude::*;
use vstd::string::*;

verus! {

/// A cached region. Uses are numbered: `last_access` is the number of the last one.
#[derive(Debug, Clone, Copy)]
pub struct CacheEntry {
    pub region_id: RegionId,
    pub pool_offset: u64,
    pub len: u64,
    pub epoch: u64,
    pub last_access: u64,
}

/// Cached regions by identifier.
pub type Entries = Map<RegionId, CacheEntry>;

/// The sum of the lengths of the entries.
pub open spec fn total_len(m: Entries) -> nat
    decreases m.dom().len(),
{
    if m.dom().finite() && m.dom().len() > 0 {
        let k = m.dom().choose();
        m[k].len as nat + total_len(m.remove(k))
    } else {
        0
    }
}

/// An entry contributes its length to the sum.
pub proof fn lemma_total_remove(m: Entries, k: RegionId)
    requires
        m.dom().finite(),
        m.contains_key(k),
    ensures
        total_len(m) == m[k].len + total_len(m.remove(k)),
    decreases m.dom().len(),
{
    let k0 = m.dom().choose();
    assert(m.dom().len() > 0);
    if k0 != k {
        let a = m.remove(k0);
        let b = m.remove(k);
        assert(m.dom().contains(k0));
        lemma_total_remove(a, k);
        lemma_total_remove(b, k0);
        assert(a.remove(k) =~= b.remove(k0));
    }
}

/// What an added entry does to the sum.
proof fn lemma_total_insert(m: Entries, k: RegionId, e: CacheEntry)
    requires
        m.dom().finite(),
    ensures
        total_len(m.insert(k, e)) <= total_len(m) + e.len,
        m.contains_key(k) && m[k].len == e.len ==> total_len(m.insert(k, e)) == total_len(m),
{
    let after = m.insert(k, e);
    lemma_total_remove(after, k);
    if m.contains_key(k) {
        lemma_total_remove(m, k);
        assert(after.remove(k) =~= m.remove(k));
    } else {
        assert(after.remove(k) =~= m);
    }
}

/// Whether no entry was used longer ago.
pub open spec fn is_lru(m: Entries, k: RegionId) -> bool {
    m.contains_key(k) && forall|j: RegionId| #[trigger]
        m.contains_key(j) ==> m[k].last_access <= m[j].last_access
}

/// The entry that was used longest ago.
pub open spec fn lru(m: Entries) -> RegionId {
    choose|k: RegionId| is_lru(m, k)
}

/// The regions with the given ones invalid.
pub open spec fn invalidated(m: Regions, ids: Seq<RegionId>) -> Regions
    decreases ids.len(),
{
    if ids.len() == 0 {
        m
    } else {
        invalidated(with_state(m, ids[0], RegionState::Invalid), ids.skip(1))
    }
}

/// The listed regions become invalid, as far as they are known; every other region stays as
/// it was.
pub proof fn lemma_invalidated(m: Regions, ids: Seq<RegionId>, id: RegionId)
    ensures
        invalidated(m, ids).contains_key(id) <==> m.contains_key(id),
        m.contains_key(id) && ids.contains(id) ==> invalidated(m, ids)[id].state
            == RegionState::Invalid && invalidated(m, ids)[id].epoch == m[id].epoch
            && invalidated(m, ids)[id].len == m[id].len,
        !ids.contains(id) ==> invalidated(m, ids)[id] == m[id],
    decreases ids.len(),
{
    if ids.len() > 0 {
        let next = with_state(m, ids[0], RegionState::Invalid);
        let rest = ids.skip(1);
        lemma_invalidated(next, rest, id);
        if ids.contains(id) && id != ids[0] {
            let p = choose|p: int| 0 <= p < ids.len() && ids[p] == id;
            assert(rest[p - 1] == id);
        }
        if rest.contains(id) {
            let p = choose|p: int| 0 <= p < rest.len() && rest[p] == id;
            assert(ids[p + 1] == id);
        }
        if id == ids[0] && !rest.contains(id) {
            assert(invalidated(next, rest)[id] == next[id]);
        }
    }
}

/// What a `CachePool` holds.
#[verifier::ext_equal]
pub struct PoolView {
    pub entries: Entries,
    pub pool: SubAllocView,
    pub max: u64,
    pub used: u64,
    /// The number of the next use.
    pub clock: u64,
    /// Whether an evicted region becomes invalid in the region table.
    pub notifies: bool,
}

impl PoolView {
    /// Whether the entries stand under their own identifiers, no two were used at once, and
    /// they fit.
    pub open spec fn wf(self) -> bool {
        &&& self.entries.dom().finite()
        &&& total_len(self.entries) <= self.used
        &&& self.used <= self.max
        &&& forall|k: RegionId| #[trigger]
            self.entries.contains_key(k) ==> self.entries[k].region_id == k
                && self.entries[k].last_access < self.clock
        &&& forall|a: RegionId, b: RegionId|
            #![trigger self.entries[a], self.entries[b]]
            self.entries.contains_key(a) && self.entries.contains_key(b) && a != b
                ==> self.entries[a].last_access != self.entries[b].last_access
    }

    /// The pool after an entry was used.
    pub open spec fn after_use(self, id: RegionId) -> Self {
        if self.entries.contains_key(id) {
            PoolView {
                entries: self.entries.insert(
                    id,
                    CacheEntry { last_access: self.clock, ..self.entries[id] },
                ),
                clock: (self.clock + 1) as u64,
                ..self
            }
        } else {
            self
        }
    }

    /// The pool without an entry.
    pub open spec fn without(self, id: RegionId) -> Self {
        if self.entries.contains_key(id) {
            PoolView {
                entries: self.entries.remove(id),
                used: (self.used - self.entries[id].len) as u64,
                ..self
            }
        } else {
            self
        }
    }

    /// Whether an entry has to make room for `len` more bytes, and there is one.
    pub open spec fn must_evict(self, len: u64) -> bool {
        self.used + len > self.max && self.entries.dom().len() > 0
    }

    /// Which entries make room for `len` more bytes: the one that was used longest ago, and
    /// so on until they fit or none is left.
    pub open spec fn evictions(self, len: u64) -> Seq<RegionId>
        decreases self.entries.dom().len(),
    {
        if self.wf() && self.must_evict(len) {
            proof {
                lemma_exists_lru(self.entries);
            }
            seq![lru(self.entries)] + self.without(lru(self.entries)).evictions(len)
        } else {
            Seq::empty()
        }
    }

    /// The pool after room was made for `len` more bytes.
    pub open spec fn after_evictions(self, len: u64) -> Self
        decreases self.entries.dom().len(),
    {
        if self.wf() && self.must_evict(len) {
            proof {
                lemma_exists_lru(self.entries);
            }
            self.without(lru(self.entries)).after_evictions(len)
        } else {
            self
        }
    }

    /// The entry that an insertion makes, once there is room.
    pub open spec fn new_entry(self, id: RegionId, len: u64, epoch: u64) -> CacheEntry {
        CacheEntry {
            region_id: id,
            pool_offset: self.pool.next() as u64,
            len,
            epoch,
            last_access: self.clock,
        }
    }

    /// The pool with an entry added, once there is room. The space of an entry that it
    /// replaces stays in use.
    pub open spec fn added(self, id: RegionId, len: u64, epoch: u64) -> Self {
        PoolView {
            entries: self.entries.insert(id, self.new_entry(id, len, epoch)),
            pool: self.pool.after(len as nat),
            used: (self.used + len) as u64,
            clock: (self.clock + 1) as u64,
            ..self
        }
    }

    /// The regions after entries made room for `len` more bytes.
    pub open spec fn regions_after(self, m: Regions, len: u64) -> Regions {
        if self.notifies {
            invalidated(m, self.evictions(len))
        } else {
            m
        }
    }

    /// A use is noted and changes nothing else: the same regions are cached, at the same
    /// places, with the same lengths and epochs.
    pub proof fn lemma_use_keeps(self, id: RegionId, other: RegionId)
        requires
            self.entries.contains_key(id),
            self.clock < u64::MAX,
            other != id,
        ensures
            self.after_use(id).entries.dom() == self.entries.dom(),
            self.after_use(id).entries[id].pool_offset == self.entries[id].pool_offset,
            self.after_use(id).entries[id].len == self.entries[id].len,
            self.after_use(id).entries[id].epoch == self.entries[id].epoch,
            self.after_use(id).entries[id].region_id == self.entries[id].region_id,
            self.after_use(id).entries[id].last_access == self.clock,
            self.after_use(id).clock == self.clock + 1,
            self.after_use(id).entries[other] == self.entries[other],
            self.after_use(id).used == self.used,
            self.after_use(id).max == self.max,
            self.after_use(id).pool == self.pool,
    {
        assert(self.after_use(id).entries.dom() =~= self.entries.dom());
    }

    /// A dropped entry is gone and its bytes count as free; every other entry stays.
    pub proof fn lemma_drop_frees(self, id: RegionId, other: RegionId)
        requires
            self.wf(),
            self.entries.contains_key(id),
            other != id,
        ensures
            !self.without(id).entries.contains_key(id),
            self.without(id).used == self.used - self.entries[id].len,
            self.without(id).max == self.max,
            self.without(id).entries.contains_key(other) == self.entries.contains_key(other),
            self.without(id).entries[other] == self.entries[other],
    {
        self.lemma_without(id);
    }

    /// An added entry stands under its region, with its length and epoch, where the pool
    /// goes on, as the last one used; the bytes count as used, and every other entry stays.
    pub proof fn lemma_add_keeps(self, id: RegionId, len: u64, epoch: u64, other: RegionId)
        requires
            self.used + len <= self.max,
            self.clock < u64::MAX,
            self.pool.next() <= u64::MAX,
            other != id,
        ensures
            self.added(id, len, epoch).entries.contains_key(id),
            self.added(id, len, epoch).entries[id].region_id == id,
            self.added(id, len, epoch).entries[id].pool_offset == self.pool.base
                + self.pool.allocated,
            self.added(id, len, epoch).entries[id].len == len,
            self.added(id, len, epoch).entries[id].epoch == epoch,
            self.added(id, len, epoch).entries[id].last_access == self.clock,
            self.added(id, len, epoch).used == self.used + len,
            self.added(id, len, epoch).clock == self.clock + 1,
            self.added(id, len, epoch).max == self.max,
            self.added(id, len, epoch).notifies == self.notifies,
            self.added(id, len, epoch).pool.allocated == self.pool.allocated + len,
            self.added(id, len, epoch).entries.contains_key(other) == self.entries.contains_key(
                other,
            ),
            self.added(id, len, epoch).entries[other] == self.entries[other],
    {
    }

    /// Nothing makes room where there is enough, and no more makes room than is needed:
    /// without the last eviction the new bytes would not have fit. Room is made unless
    /// nothing is left to evict.
    pub proof fn lemma_no_needless_eviction(self, len: u64)
        requires
            self.wf(),
        ensures
            self.used + len <= self.max ==> self.evictions(len).len() == 0
                && self.after_evictions(len) == self,
            self.evictions(len).len() > 0 ==> self.entries.contains_key(self.evictions(len).last())
                && self.after_evictions(len).used + self.entries[self.evictions(len).last()].len
                + len > self.max,
            self.after_evictions(len).used + len <= self.max || self.after_evictions(
                len,
            ).entries.dom().len() == 0,
        decreases self.entries.dom().len(),
    {
        if self.must_evict(len) {
            lemma_exists_lru(self.entries);
            let first = lru(self.entries);
            let rest = self.without(first);
            self.lemma_without(first);
            rest.lemma_no_needless_eviction(len);
            if rest.evictions(len).len() > 0 {
                assert(self.evictions(len).last() == rest.evictions(len).last());
            } else {
                assert(self.evictions(len).last() == first);
                assert(!(rest.wf() && rest.must_evict(len)));
            }
        }
    }

    /// The entries that make room are gone, the others are left as they were, and the bytes
    /// of those that are gone count as free.
    pub proof fn lemma_evicted_is_gone(self, len: u64, id: RegionId)
        requires
            self.wf(),
        ensures
            self.after_evictions(len).entries.contains_key(id) <==> self.entries.contains_key(id)
                && !self.evictions(len).contains(id),
            self.after_evictions(len).entries.contains_key(id) ==> self.after_evictions(
                len,
            ).entries[id] == self.entries[id],
            self.used - self.after_evictions(len).used == total_len(self.entries) - total_len(
                self.after_evictions(len).entries,
            ),
        decreases self.entries.dom().len(),
    {
        if self.must_evict(len) {
            lemma_exists_lru(self.entries);
            let first = lru(self.entries);
            let rest = self.without(first);
            let all = self.evictions(len);
            let more = rest.evictions(len);
            self.lemma_without(first);
            lemma_total_remove(self.entries, first);
            rest.lemma_evicted_is_gone(len, id);
            assert(all[0] == first);
            if all.contains(id) && id != first {
                let p = choose|p: int| 0 <= p < all.len() && all[p] == id;
                assert(more[p - 1] == id);
            }
            if more.contains(id) {
                let p = choose|p: int| 0 <= p < more.len() && more[p] == id;
                assert(all[p + 1] == id);
            }
        }
    }

    /// Where evictions are told, a region whose copy made room becomes invalid, and no other
    /// region changes; where they are not told, none does.
    pub proof fn lemma_regions_told(self, m: Regions, len: u64, id: RegionId)
        requires
            m.contains_key(id),
        ensures
            self.regions_after(m, len).contains_key(id),
            self.notifies && self.evictions(len).contains(id) ==> self.regions_after(
                m,
                len,
            )[id].state == RegionState::Invalid,
            !self.notifies || !self.evictions(len).contains(id) ==> self.regions_after(m, len)[id]
                == m[id],
    {
        lemma_invalidated(m, self.evictions(len), id);
    }

    /// Dropping an entry keeps the pool in order.
    pub proof fn lemma_without(self, id: RegionId)
        requires
            self.wf(),
        ensures
            self.without(id).wf(),
            self.entries.contains_key(id) ==> self.without(id).entries.dom().len() + 1
                == self.entries.dom().len(),
            self.entries.contains_key(id) ==> self.entries[id].len <= self.used,
    {
        if self.entries.contains_key(id) {
            lemma_total_remove(self.entries, id);
        }
    }

    /// Making room keeps the pool in order, and makes it where dropping every entry would.
    pub proof fn lemma_after_evictions(self, len: u64)
        requires
            self.wf(),
        ensures
            self.after_evictions(len).wf(),
            !self.after_evictions(len).must_evict(len),
            self.after_evictions(len).used <= self.used,
            self.after_evictions(len).pool == self.pool,
            self.after_evictions(len).max == self.max,
            self.after_evictions(len).clock == self.clock,
            self.after_evictions(len).notifies == self.notifies,
            forall|k: RegionId| #[trigger]
                self.after_evictions(len).entries.contains_key(k) ==> self.entries.contains_key(k)
                    && self.after_evictions(len).entries[k] == self.entries[k],
        decreases self.entries.dom().len(),
    {
        if self.must_evict(len) {
            lemma_exists_lru(self.entries);
            self.lemma_without(lru(self.entries));
            self.without(lru(self.entries)).lemma_after_evictions(len);
        }
    }

    /// What makes room was used longer ago than anything that stays.
    pub proof fn lemma_evicts_lru(self, len: u64, gone: RegionId, kept: RegionId)
        requires
            self.wf(),
            self.evictions(len).contains(gone),
            self.after_evictions(len).entries.contains_key(kept),
        ensures
            self.entries.contains_key(gone),
            self.entries[gone].last_access < self.entries[kept].last_access,
        decreases self.entries.dom().len(),
    {
        self.lemma_after_evictions(len);
        if self.must_evict(len) {
            lemma_exists_lru(self.entries);
            let first = lru(self.entries);
            let rest = self.without(first);
            self.lemma_without(first);
            rest.lemma_after_evictions(len);
            assert(rest.entries.contains_key(kept));
            if gone != first {
                let all = self.evictions(len);
                let i = choose|i: int| 0 <= i < all.len() && all[i] == gone;
                assert(rest.evictions(len)[i - 1] == gone);
                rest.lemma_evicts_lru(len, gone, kept);
            } else {
                assert(self.entries[first].last_access != self.entries[kept].last_access);
            }
        }
    }

    /// What is in use never exceeds the limit: using, dropping and adding entries keep the
    /// pool in order.
    pub proof fn lemma_added(self, id: RegionId, len: u64, epoch: u64)
        requires
            self.wf(),
            self.used + len <= self.max,
            self.clock < u64::MAX,
        ensures
            self.added(id, len, epoch).wf(),
            self.after_use(id).wf(),
    {
        let e = self.new_entry(id, len, epoch);
        lemma_total_insert(self.entries, id, e);
        if self.entries.contains_key(id) {
            let u = CacheEntry { last_access: self.clock, ..self.entries[id] };
            lemma_total_insert(self.entries, id, u);
        }
    }
}

/// Among some entries one was used longest ago.
pub proof fn lemma_exists_lru(m: Entries)
    requires
        m.dom().finite(),
        m.dom().len() > 0,
    ensures
        is_lru(m, lru(m)),
        m.contains_key(lru(m)),
    decreases m.dom().len(),
{
    let k = m.dom().choose();
    assert(m.contains_key(k));
    let rest = m.remove(k);
    if rest.dom().len() == 0 {
        assert(rest.dom() =~= Set::empty());
        assert forall|j: RegionId| #[trigger] m.contains_key(j) implies m[k].last_access
            <= m[j].last_access by {
            if j != k {
                assert(rest.dom().contains(j));
            }
        }
        assert(is_lru(m, k));
    } else {
        lemma_exists_lru(rest);
        let o = lru(rest);
        if m[k].last_access <= m[o].last_access {
            assert forall|j: RegionId| #[trigger] m.contains_key(j) implies m[k].last_access
                <= m[j].last_access by {
                if j != k {
                    assert(rest.contains_key(j));
                }
            }
            assert(is_lru(m, k));
        } else {
            assert forall|j: RegionId| #[trigger] m.contains_key(j) implies m[o].last_access
                <= m[j].last_access by {
                if j != k {
                    assert(rest.contains_key(j));
                }
            }
            assert(is_lru(m, o));
        }
    }
}

/// Local copies of remote regions, in a pool. Where it is full, the regions that were used
/// longest ago make room.
pub struct CachePool {
    entries: Table<CacheEntry>,
    allocator: SubAllocator,
    max_bytes: u64,
    used_bytes: u64,
    clock: u64,
    notifies: bool,
}

impl View for CachePool {
    type V = PoolView;

    closed spec fn view(&self) -> PoolView {
        PoolView {
            entries: Map::new(
                |k: RegionId| self.entries@.contains_key(k.0 as u128),
                |k: RegionId| self.entries@[k.0 as u128],
            ),
            pool: self.allocator@,
            max: self.max_bytes,
            used: self.used_bytes,
            clock: self.clock,
            notifies: self.notifies,
        }
    }
}

impl CachePool {
    pub closed spec fn wf(&self) -> bool {
        &&& self.entries.wf()
        &&& self.allocator.wf()
        &&& self@.wf()
        &&& forall|k: u128| #[trigger] self.entries@.contains_key(k) ==> k <= u64::MAX
    }

    /// The pool is in order.
    pub proof fn lemma_wf(&self)
        requires
            self.wf(),
        ensures
            self@.wf(),
            self@.pool.allocated <= self@.pool.total <= u64::MAX,
            self@.pool.base <= u64::MAX,
    {
        self.allocator.lemma_wf();
    }

    /// An empty pool of its own.
    pub fn new(allocator: SubAllocator, max_bytes: u64) -> (r: Self)
        requires
            allocator.wf(),
        ensures
            r.wf(),
            r@ == (PoolView {
                entries: Map::empty(),
                pool: allocator@,
                max: max_bytes,
                used: 0,
                clock: 0,
                notifies: false,
            }),
    {
        let r = CachePool {
            entries: Table::new(),
            allocator,
            max_bytes,
            used_bytes: 0,
            clock: 0,
            notifies: false,
        };
        assert(r@.entries =~= Map::empty());
        r
    }

    /// An empty pool whose evictions make regions invalid in the region table.
    pub fn with_region_table(allocator: SubAllocator, max_bytes: u64) -> (r: Self)
        requires
            allocator.wf(),
        ensures
            r.wf(),
            r@ == (PoolView {
                entries: Map::empty(),
                pool: allocator@,
                max: max_bytes,
                used: 0,
                clock: 0,
                notifies: true,
            }),
    {
        let r = CachePool {
            entries: Table::new(),
            allocator,
            max_bytes,
            used_bytes: 0,
            clock: 0,
            notifies: true,
        };
        assert(r@.entries =~= Map::empty());
        r
    }

    /// Looks up a cached region, which counts as a use.
    pub fn lookup(&mut self, region_id: RegionId) -> (r: Option<CacheEntry>)
        requires
            old(self).wf(),
            old(self)@.clock < u64::MAX,
        ensures
            final(self).wf(),
            final(self)@ == old(self)@.after_use(region_id),
            match r {
                Some(e) => old(self)@.entries.contains_key(region_id) && e
                    == final(self)@.entries[region_id],
                None => !old(self)@.entries.contains_key(region_id),
            },
    {
        proof {
            self@.lemma_added(region_id, 0, 0);
        }
        let now: u64 = self.clock;
        let found = match self.entries.get_mut(region_id.0 as u128) {
            Some(e) => {
                e.last_access = now;
                Some(*e)
            },
            None => None,
        };
        if found.is_some() {
            self.clock = now + 1;
        }
        assert(self@ =~= old(self)@.after_use(region_id));
        found
    }

    /// Adds a region. Where the pool is full, the regions that were used longest ago make
    /// room.
    pub fn insert(
        &mut self,
        region_id: RegionId,
        len: u64,
        epoch: u64,
        region_table: &mut RegionTable,
    ) -> (r: Result<CacheEntry, String>)
        requires
            old(self).wf(),
            old(self)@.clock < u64::MAX,
            old(region_table).wf(),
        ensures
            final(self).wf(),
            final(region_table).wf(),
            final(region_table)@ == old(self)@.regions_after(old(region_table)@, len),
            ({
                let p = old(self)@.after_evictions(len);
                match r {
                    Ok(e) => {
                        &&& p.used + len <= p.max
                        &&& p.pool.has_room(len as nat)
                        &&& e == p.new_entry(region_id, len, epoch)
                        &&& e.pool_offset == p.pool.next()
                        &&& final(self)@ == p.added(region_id, len, epoch)
                    },
                    Err(t) => {
                        &&& final(self)@ == p
                        &&& if p.used + len > p.max {
                            t@ == "cache pool full, cannot evict enough space"@
                        } else {
                            !p.pool.has_room(len as nat) && t@ == "sub-allocator exhausted"@
                        }
                    },
                }
            }),
    {
        let ghost first = self@;
        let ghost told = region_table@;
        while len > self.max_bytes - self.used_bytes
            invariant
                self.wf(),
                region_table.wf(),
                first.wf(),
                first == old(self)@,
                told == old(region_table)@,
                self@.clock < u64::MAX,
                self@.notifies == first.notifies,
                self@.after_evictions(len) == first.after_evictions(len),
                self@.regions_after(region_table@, len) == first.regions_after(told, len),
            decreases self@.entries.dom().len(),
        {
            let ghost before = self@;
            if !self.evict_lru(region_table) {
                assert(!before.must_evict(len));
                return Err(String::from_str("cache pool full, cannot evict enough space"));
            }
            proof {
                let k = lru(before.entries);
                lemma_exists_lru(before.entries);
                before.lemma_without(k);
                assert(before.must_evict(len));
                let ids = before.evictions(len);
                assert(ids[0] == k);
                assert(ids.skip(1) =~= self@.evictions(len));
            }
        }
        proof {
            assert(!self@.must_evict(len));
            self@.lemma_added(region_id, len, epoch);
        }
        let ghost mid = self@;
        let pool_offset: u64 = match self.allocator.allocate(len) {
            Some(offset) => offset,
            None => {
                assert(self@ =~= mid);
                return Err(String::from_str("sub-allocator exhausted"));
            },
        };
        let entry = CacheEntry { region_id, pool_offset, len, epoch, last_access: self.clock };
        self.used_bytes = self.used_bytes + len;
        self.clock = self.clock + 1;
        self.entries.insert(region_id.0 as u128, entry);
        assert(self@ =~= mid.added(region_id, len, epoch));
        Ok(entry)
    }

    /// Drops a region.
    pub fn remove(&mut self, region_id: RegionId) -> (r: Option<CacheEntry>)
        requires
            old(self).wf(),
        ensures
            final(self).wf(),
            final(self)@ == old(self)@.without(region_id),
            r == (if old(self)@.entries.contains_key(region_id) {
                Some(old(self)@.entries[region_id])
            } else {
                None
            }),
    {
        proof {
            self@.lemma_without(region_id);
        }
        match self.entries.remove(region_id.0 as u128) {
            Some(entry) => {
                self.used_bytes = self.used_bytes - entry.len;
                self.allocator.free(entry.pool_offset, entry.len);
                assert(self@ =~= old(self)@.without(region_id));
                Some(entry)
            },
            None => {
                assert(self@ =~= old(self)@.without(region_id));
                None
            },
        }
    }

    /// Drops the region that was used longest ago. Returns whether there was one.
    pub fn evict_lru(&mut self, region_table: &mut RegionTable) -> (r: bool)
        requires
            old(self).wf(),
            old(region_table).wf(),
        ensures
            final(self).wf(),
            final(region_table).wf(),
            r == (old(self)@.entries.dom().len() > 0),
            final(self)@ == (if r {
                old(self)@.without(lru(old(self)@.entries))
            } else {
                old(self)@
            }),
            final(region_table)@ == (if r && old(self)@.notifies {
                with_state(old(region_table)@, lru(old(self)@.entries), RegionState::Invalid)
            } else {
                old(region_table)@
            }),
    {
        let n: usize = self.entries.len();
        let ghost m = self@.entries;
        proof {
            self.lemma_len();
        }
        if n == 0 {
            return false;
        }
        proof {
            self.entries.lemma_positions();
        }
        let mut best: CacheEntry = *self.entries.val_at(0);
        let mut i: usize = 1;
        proof {
            self.lemma_at(0);
        }
        while i < n
            invariant
                1 <= i <= n,
                n == self.entries.key_seq().len(),
                self.wf(),
                m == self@.entries,
                m.contains_key(best.region_id),
                m[best.region_id] == best,
                forall|p: int|
                    0 <= p < i ==> best.last_access <= self.entries@[
                        #[trigger] self.entries.key_seq()[p]
                    ].last_access,
            decreases n - i,
        {
            proof {
                self.lemma_at(i as int);
            }
            let e = self.entries.val_at(i);
            if e.last_access < best.last_access {
                best = *e;
            }
            i = i + 1;
        }
        proof {
            self.entries.lemma_positions();
            assert forall|j: RegionId| #[trigger] m.contains_key(j) implies best.last_access
                <= m[j].last_access by {
                let k = j.0 as u128;
                assert(self.entries@.contains_key(k));
                let p = choose|p: int|
                    0 <= p < self.entries.key_seq().len() && self.entries.key_seq()[p] == k
                        && self.entries.val_seq()[p] == self.entries@[k];
                assert(best.last_access <= self.entries@[self.entries.key_seq()[p]].last_access);
            }
            assert(is_lru(m, best.region_id));
            lemma_exists_lru(m);
            let o = lru(m);
            assert(m.contains_key(o) && m.contains_key(best.region_id));
            assert(m[o].last_access <= m[best.region_id].last_access);
            assert(o == best.region_id);
        }
        self.remove(best.region_id);
        if self.notifies {
            region_table.set_state(best.region_id, RegionState::Invalid);
        }
        true
    }

    /// The entry at a position stands under its own identifier.
    proof fn lemma_at(&self, i: int)
        requires
            self.wf(),
            0 <= i < self.entries.key_seq().len(),
        ensures
            ({
                let k = self.entries.key_seq()[i];
                let e = self.entries@[k];
                &&& self.entries@.contains_key(k)
                &&& k == e.region_id.0
                &&& self@.entries.contains_key(e.region_id)
                &&& self@.entries[e.region_id] == e
            }),
    {
        self.entries.lemma_positions();
        let k = self.entries.key_seq()[i];
        assert(self.entries@.contains_key(k));
        let id = RegionId(k as u64);
        assert(self@.entries.contains_key(id));
    }

    /// Index and view hold the same number of entries.
    proof fn lemma_len(&self)
        requires
            self.wf(),
        ensures
            self.entries@.dom().len() == self@.entries.dom().len(),
    {
        self.entries.lemma_positions();
        let f = |k: u128| RegionId(k as u64);
        let a = self.entries@.dom();
        let b = self@.entries.dom();
        assert(a.map(f) =~= b) by {
            assert forall|id: RegionId| a.map(f).contains(id) <==> b.contains(id) by {
                if b.contains(id) {
                    let k = id.0 as u128;
                    assert(a.contains(k) && f(k) == id);
                }
            }
        }
        vstd::set_lib::lemma_map_size(a, b, f);
    }

    /// Sets the epoch of a cached region, which counts as a use.
    pub fn update_epoch(&mut self, region_id: RegionId, epoch: u64) -> (r: bool)
        requires
            old(self).wf(),
            old(self)@.clock < u64::MAX,
        ensures
            final(self).wf(),
            r == old(self)@.entries.contains_key(region_id),
            final(self)@ == (if r {
                let p = old(self)@.after_use(region_id);
                PoolView {
                    entries: p.entries.insert(
                        region_id,
                        CacheEntry { epoch, ..p.entries[region_id] },
                    ),
                    ..p
                }
            } else {
                old(self)@
            }),
    {
        proof {
            self@.lemma_added(region_id, 0, 0);
        }
        let now: u64 = self.clock;
        let found = match self.entries.get_mut(region_id.0 as u128) {
            Some(e) => {
                e.epoch = epoch;
                e.last_access = now;
                true
            },
            None => false,
        };
        if found {
            self.clock = now + 1;
            proof {
                let p = old(self)@.after_use(region_id);
                let e = CacheEntry { epoch, ..p.entries[region_id] };
                lemma_total_insert(p.entries, region_id, e);
                assert(self@.entries =~= p.entries.insert(region_id, e));
            }
        } else {
            assert(self@ =~= old(self)@);
        }
        found
    }

    /// Whether a region is cached.
    pub fn contains(&self, region_id: RegionId) -> (r: bool)
        requires
            self.wf(),
        ensures
            r == self@.entries.contains_key(region_id),
    {
        self.entries.contains(region_id.0 as u128)
    }

    /// How many regions are cached.
    pub fn len(&self) -> (r: usize)
        requires
            self.wf(),
        ensures
            r == self@.entries.dom().len(),
    {
        proof {
            self.lemma_len();
        }
        self.entries.len()
    }

    /// How many bytes are in use.
    pub fn used_bytes(&self) -> (r: u64)
        ensures
            r == self@.used,
    {
        self.used_bytes
    }

    /// How many bytes may be in use.
    pub fn max_bytes(&self) -> (r: u64)
        ensures
            r == self@.max,
    {
        self.max_bytes
    }
}

} // verus!
