//! The regions that a node knows of.
use crate::table::Table;
use crate::types::{RegionId, RegionInfo, RegionState};
use vstd::prelude::*;

verus! {

/// Regions by identifier.
pub type Regions = Map<RegionId, RegionInfo>;

/// The regions with one in another state.
pub open spec fn with_state(m: Regions, id: RegionId, state: RegionState) -> Regions {
    if m.contains_key(id) {
        m.insert(id, RegionInfo { state, ..m[id] })
    } else {
        m
    }
}

/// The regions with one at another epoch.
pub open spec fn with_epoch(m: Regions, id: RegionId, epoch: u64) -> Regions {
    if m.contains_key(id) {
        m.insert(id, RegionInfo { epoch, ..m[id] })
    } else {
        m
    }
}

/// A change of state or epoch touches one known region and, of that region, nothing else.
pub proof fn lemma_one_field(m: Regions, id: RegionId, state: RegionState, epoch: u64, other: RegionId)
    requires
        m.contains_key(id),
        other != id,
    ensures
        with_state(m, id, state).dom() == m.dom(),
        with_epoch(m, id, epoch).dom() == m.dom(),
        with_state(m, id, state)[other] == m[other],
        with_epoch(m, id, epoch)[other] == m[other],
        with_state(m, id, state)[id].state == state,
        with_state(m, id, state)[id].epoch == m[id].epoch,
        with_state(m, id, state)[id].len == m[id].len,
        with_state(m, id, state)[id].region_id == m[id].region_id,
        with_epoch(m, id, epoch)[id].epoch == epoch,
        with_epoch(m, id, epoch)[id].state == m[id].state,
        with_epoch(m, id, epoch)[id].len == m[id].len,
        with_epoch(m, id, epoch)[id].region_id == m[id].region_id,
{
    assert(with_state(m, id, state).dom() =~= m.dom());
    assert(with_epoch(m, id, epoch).dom() =~= m.dom());
}

/// Whether a list holds exactly the regions that `pick` picks, each once.
pub open spec fn lists(r: Seq<RegionInfo>, m: Regions, pick: spec_fn(RegionInfo) -> bool) -> bool {
    &&& forall|i: int|
        0 <= i < r.len() ==> m.contains_key((#[trigger] r[i]).region_id) && m[r[i].region_id] == r[i]
            && pick(r[i])
    &&& forall|id: RegionId| #[trigger]
        m.contains_key(id) && pick(m[id]) ==> exists|i: int|
            0 <= i < r.len() && #[trigger] r[i] == m[id]
    &&& forall|i: int, j: int|
        0 <= i < j < r.len() ==> (#[trigger] r[i]).region_id != (#[trigger] r[j]).region_id
}

/// A list names a known region exactly where it is picked, and names none twice.
pub proof fn lemma_listed(r: Seq<RegionInfo>, m: Regions, pick: spec_fn(RegionInfo) -> bool, id: RegionId)
    requires
        lists(r, m, pick),
        m.contains_key(id),
    ensures
        pick(m[id]) ==> r.contains(m[id]),
        r.contains(m[id]) ==> pick(m[id]),
        r.no_duplicates(),
{
    if pick(m[id]) {
        let i = choose|i: int| 0 <= i < r.len() && #[trigger] r[i] == m[id];
        assert(r[i] == m[id]);
    }
    assert forall|i: int, j: int| 0 <= i < r.len() && 0 <= j < r.len() && i != j implies r[i]
        != r[j] by {
        if i < j {
            assert(r[i].region_id != r[j].region_id);
        } else {
            assert(r[j].region_id != r[i].region_id);
        }
    }
}

/// The regions in the states that `pick` picks.
pub open spec fn ids_where(m: Regions, pick: spec_fn(RegionInfo) -> bool) -> Set<RegionId> {
    m.dom().filter(|id: RegionId| pick(m[id]))
}

/// The regions that a node knows of: its own, and those of other nodes that it may have
/// cached.
pub struct RegionTable {
    entries: Table<RegionInfo>,
}

impl View for RegionTable {
    type V = Regions;

    closed spec fn view(&self) -> Regions {
        Map::new(
            |k: RegionId| self.entries@.contains_key(k.0 as u128),
            |k: RegionId| self.entries@[k.0 as u128],
        )
    }
}

impl RegionTable {
    pub closed spec fn wf(&self) -> bool {
        &&& self.entries.wf()
        &&& forall|k: u128| #[trigger]
            self.entries@.contains_key(k) ==> k == self.entries@[k].region_id.0
    }

    /// A region stands under its own identifier.
    pub proof fn lemma_key(&self, id: RegionId)
        requires
            self.wf(),
            self@.contains_key(id),
        ensures
            self@[id].region_id == id,
    {
        assert(self.entries@.contains_key(id.0 as u128));
    }

    pub fn new() -> (r: Self)
        ensures
            r.wf(),
            r@ == Map::<RegionId, RegionInfo>::empty(),
    {
        let r = RegionTable { entries: Table::new() };
        assert(r@ =~= Map::<RegionId, RegionInfo>::empty());
        r
    }

    /// Adds a region, or replaces it.
    pub fn insert(&mut self, info: RegionInfo)
        requires
            old(self).wf(),
        ensures
            final(self).wf(),
            final(self)@ == old(self)@.insert(info.region_id, info),
    {
        self.entries.insert(info.region_id.0 as u128, info);
        assert(self@ =~= old(self)@.insert(info.region_id, info));
    }

    pub fn lookup(&self, region_id: RegionId) -> (r: Option<RegionInfo>)
        requires
            self.wf(),
        ensures
            r == (if self@.contains_key(region_id) {
                Some(self@[region_id])
            } else {
                None
            }),
    {
        match self.entries.get(region_id.0 as u128) {
            Some(e) => Some(*e),
            None => None,
        }
    }

    pub fn remove(&mut self, region_id: RegionId) -> (r: Option<RegionInfo>)
        requires
            old(self).wf(),
        ensures
            final(self).wf(),
            final(self)@ == old(self)@.remove(region_id),
            r == (if old(self)@.contains_key(region_id) {
                Some(old(self)@[region_id])
            } else {
                None
            }),
    {
        let r = self.entries.remove(region_id.0 as u128);
        assert(self@ =~= old(self)@.remove(region_id));
        r
    }

    /// Puts a region into another state. Returns whether there is such a region.
    pub fn set_state(&mut self, region_id: RegionId, state: RegionState) -> (r: bool)
        requires
            old(self).wf(),
        ensures
            final(self).wf(),
            r == old(self)@.contains_key(region_id),
            final(self)@ == with_state(old(self)@, region_id, state),
    {
        let found = match self.entries.get_mut(region_id.0 as u128) {
            Some(e) => {
                e.state = state;
                true
            },
            None => false,
        };
        assert(self@ =~= with_state(old(self)@, region_id, state));
        found
    }

    /// Sets the epoch of a region. Returns whether there is such a region.
    pub fn set_epoch(&mut self, region_id: RegionId, epoch: u64) -> (r: bool)
        requires
            old(self).wf(),
        ensures
            final(self).wf(),
            r == old(self)@.contains_key(region_id),
            final(self)@ == with_epoch(old(self)@, region_id, epoch),
    {
        let found = match self.entries.get_mut(region_id.0 as u128) {
            Some(e) => {
                e.epoch = epoch;
                true
            },
            None => false,
        };
        assert(self@ =~= with_epoch(old(self)@, region_id, epoch));
        found
    }

    /// Every region, in no particular order.
    pub fn list(&self) -> (r: Vec<RegionInfo>)
        requires
            self.wf(),
        ensures
            lists(r@, self@, |e: RegionInfo| true),
    {
        let n: usize = self.entries.len();
        let mut out: Vec<RegionInfo> = Vec::new();
        let mut i: usize = 0;
        proof {
            self.entries.lemma_positions();
        }
        while i < n
            invariant
                i <= n,
                n == self.entries.key_seq().len(),
                n == self.entries.val_seq().len(),
                self.wf(),
                out@ == self.entries.val_seq().take(i as int),
            decreases n - i,
        {
            out.push(*self.entries.val_at(i));
            assert(out@ =~= self.entries.val_seq().take(i + 1));
            i = i + 1;
        }
        proof {
            self.entries.lemma_positions();
            assert(out@ =~= self.entries.val_seq());
            self.lemma_all(out@);
        }
        out
    }

    /// The stored values are the regions.
    proof fn lemma_all(&self, r: Seq<RegionInfo>)
        requires
            self.wf(),
            r == self.entries.val_seq(),
        ensures
            lists(r, self@, |e: RegionInfo| true),
    {
        self.entries.lemma_positions();
        let keys = self.entries.key_seq();
        assert forall|i: int| 0 <= i < r.len() implies self@.contains_key(
            (#[trigger] r[i]).region_id,
        ) && self@[r[i].region_id] == r[i] by {
            assert(self.entries@.contains_key(keys[i]));
        }
        assert forall|id: RegionId| #[trigger] self@.contains_key(id) implies exists|i: int|
            0 <= i < r.len() && #[trigger] r[i] == self@[id] by {
            let k = id.0 as u128;
            assert(self.entries@.contains_key(k));
            let i = choose|i: int|
                0 <= i < keys.len() && keys[i] == k && self.entries.val_seq()[i]
                    == self.entries@[k];
            assert(r[i] == self@[id]);
        }
        assert forall|i: int, j: int| 0 <= i < j < r.len() implies (#[trigger] r[i]).region_id != (
        #[trigger] r[j]).region_id by {
            assert(self.entries@.contains_key(keys[i]) && self.entries@.contains_key(keys[j]));
            assert(keys[i] != keys[j]);
        }
    }

    /// The regions in a state, in no particular order.
    pub fn list_by_state(&self, state: RegionState) -> (r: Vec<RegionInfo>)
        requires
            self.wf(),
        ensures
            lists(r@, self@, |e: RegionInfo| e.state == state),
    {
        let all = self.list();
        let ghost pick = |e: RegionInfo| e.state == state;
        let mut out: Vec<RegionInfo> = Vec::new();
        let mut i: usize = 0;
        let ghost mut from: Seq<int> = Seq::empty();
        while i < all.len()
            invariant
                i <= all@.len(),
                pick == (|e: RegionInfo| e.state == state),
                from.len() == out@.len(),
                forall|p: int|
                    0 <= p < from.len() ==> 0 <= #[trigger] from[p] < i && out@[p] == all@[from[p]]
                        && pick(out@[p]),
                forall|a: int, b: int| 0 <= a < b < from.len() ==> from[a] < from[b],
                forall|q: int| 0 <= q < i && pick(#[trigger] all@[q]) ==> from.contains(q),
            decreases all@.len() - i,
        {
            let ghost had = from;
            if all[i].state == state {
                out.push(all[i]);
                proof {
                    from = from.push(i as int);
                    assert forall|q: int| 0 <= q < i + 1 && pick(
                        #[trigger] all@[q],
                    ) implies from.contains(q) by {
                        if q < i {
                            let p = choose|p: int| 0 <= p < had.len() && had[p] == q;
                            assert(from[p] == q);
                        } else {
                            assert(from[had.len() as int] == q);
                        }
                    }
                }
            }
            i = i + 1;
        }
        proof {
            assert forall|p: int| 0 <= p < out@.len() implies self@.contains_key(
                (#[trigger] out@[p]).region_id,
            ) && self@[out@[p].region_id] == out@[p] && pick(out@[p]) by {
                let q = from[p];
                assert(self@.contains_key(all@[q].region_id));
            }
            assert forall|id: RegionId| #[trigger]
                self@.contains_key(id) && pick(self@[id]) implies exists|p: int|
                0 <= p < out@.len() && #[trigger] out@[p] == self@[id] by {
                let q = choose|q: int| 0 <= q < all@.len() && #[trigger] all@[q] == self@[id];
                assert(from.contains(q));
                let p = choose|p: int| 0 <= p < from.len() && from[p] == q;
                assert(out@[p] == self@[id]);
            }
            assert forall|a: int, b: int| 0 <= a < b < out@.len() implies (
            #[trigger] out@[a]).region_id != (#[trigger] out@[b]).region_id by {
                assert(from[a] < from[b]);
                assert(all@[from[a]].region_id != all@[from[b]].region_id);
            }
        }
        out
    }

    /// How many regions are at home here, cached, and invalid.
    pub fn count_by_state(&self) -> (r: (usize, usize, usize))
        requires
            self.wf(),
        ensures
            r.0 == ids_where(self@, |e: RegionInfo| e.state is Home).len(),
            r.1 == ids_where(self@, |e: RegionInfo| e.state is Shared).len(),
            r.2 == ids_where(self@, |e: RegionInfo| e.state is Invalid).len(),
    {
        let all = self.list();
        let mut home: usize = 0;
        let mut shared: usize = 0;
        let mut invalid: usize = 0;
        let ghost mut hs: Set<RegionId> = Set::empty();
        let ghost mut ss: Set<RegionId> = Set::empty();
        let ghost mut vs: Set<RegionId> = Set::empty();
        let mut i: usize = 0;
        while i < all.len()
            invariant
                i <= all@.len(),
                lists(all@, self@, |e: RegionInfo| true),
                hs.finite() && ss.finite() && vs.finite(),
                hs.len() == home && ss.len() == shared && vs.len() == invalid,
                home <= i && shared <= i && invalid <= i,
                forall|id: RegionId| #[trigger]
                    hs.contains(id) <==> exists|q: int|
                        0 <= q < i && (#[trigger] all@[q]).region_id == id && all@[q].state is Home,
                forall|id: RegionId| #[trigger]
                    ss.contains(id) <==> exists|q: int|
                        0 <= q < i && (#[trigger] all@[q]).region_id == id
                            && all@[q].state is Shared,
                forall|id: RegionId| #[trigger]
                    vs.contains(id) <==> exists|q: int|
                        0 <= q < i && (#[trigger] all@[q]).region_id == id
                            && all@[q].state is Invalid,
            decreases all@.len() - i,
        {
            let ghost id = all@[i as int].region_id;
            proof {
                assert forall|q: int| 0 <= q < i implies (#[trigger] all@[q]).region_id != id by {}
            }
            match all[i].state {
                RegionState::Home => {
                    home = home + 1;
                    proof {
                        assert(!hs.contains(id));
                        hs = hs.insert(id);
                    }
                },
                RegionState::Shared(_) => {
                    shared = shared + 1;
                    proof {
                        assert(!ss.contains(id));
                        ss = ss.insert(id);
                    }
                },
                RegionState::Invalid => {
                    invalid = invalid + 1;
                    proof {
                        assert(!vs.contains(id));
                        vs = vs.insert(id);
                    }
                },
            }
            i = i + 1;
        }
        proof {
            assert forall|id: RegionId| #[trigger] self@.contains_key(id) implies exists|q: int|
                0 <= q < all@.len() && #[trigger] all@[q] == self@[id] && all@[q].region_id
                    == id by {
                self.lemma_key(id);
                let q = choose|q: int| 0 <= q < all@.len() && #[trigger] all@[q] == self@[id];
                assert(all@[q].region_id == id);
            }
            assert(hs =~= ids_where(self@, |e: RegionInfo| e.state is Home));
            assert(ss =~= ids_where(self@, |e: RegionInfo| e.state is Shared));
            assert(vs =~= ids_where(self@, |e: RegionInfo| e.state is Invalid));
        }
        (home, shared, invalid)
    }
}

} // verus!
