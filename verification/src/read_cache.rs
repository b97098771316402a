//! Cache of read responses, so that a repeated read request is answered alike.
use crate::table::Table;
use vstd::prelude::*;
use vstd::slice::slice_to_vec;

verus! {

/// Source node and request identifier.
pub type CacheKey = (u16, u64);

/// A key as a number.
pub open spec fn cache_key(key: CacheKey) -> u128 {
    (key.0 * 0x1_0000_0000_0000_0000 + key.1) as u128
}

/// Different keys are different numbers.
pub proof fn lemma_cache_key(a: CacheKey, b: CacheKey)
    ensures
        cache_key(a) == cache_key(b) ==> a == b,
{
}

fn pack_key(key: CacheKey) -> (r: u128)
    ensures
        r == cache_key(key),
{
    key.0 as u128 * 0x1_0000_0000_0000_0000 + key.1 as u128
}

struct CachedResponse {
    response: Vec<u8>,
    inserted_at: u64,
    order: u64,
}

/// A cached response: its bytes, when it was stored (in milliseconds), and when it was
/// last used, as a count of uses.
#[verifier::ext_equal]
pub struct ResponseView {
    pub response: Seq<u8>,
    pub inserted_at: u64,
    pub order: u64,
}

/// What a cache holds.
#[verifier::ext_equal]
pub struct ReadCacheView {
    pub entries: Map<u128, ResponseView>,
    pub capacity: nat,
    pub ttl_ms: nat,
    pub next_order: nat,
}

/// Time that has passed since `since`.
pub open spec fn age(now: u64, since: u64) -> nat {
    if now >= since {
        (now - since) as nat
    } else {
        0
    }
}

impl ReadCacheView {
    /// Whether an entry is young enough to be used.
    pub open spec fn fresh(self, e: ResponseView, now: u64) -> bool {
        age(now, e.inserted_at) <= self.ttl_ms
    }

    /// Whether the cache answers for a key.
    pub open spec fn hit(self, k: u128, now: u64) -> bool {
        self.entries.contains_key(k) && self.fresh(self.entries[k], now)
    }

    /// The entries that are young enough.
    pub open spec fn live(self, now: u64) -> Map<u128, ResponseView> {
        self.entries.restrict(
            Set::new(|k: u128| self.entries.contains_key(k) && self.fresh(self.entries[k], now)),
        )
    }

    /// What looking up a key leaves behind: a used entry moves to the front, an expired
    /// one is dropped.
    pub open spec fn after_get(self, k: u128, now: u64) -> Self {
        if self.hit(k, now) {
            ReadCacheView {
                entries: self.entries.insert(
                    k,
                    ResponseView { order: self.next_order as u64, ..self.entries[k] },
                ),
                next_order: self.next_order + 1,
                ..self
            }
        } else {
            ReadCacheView { entries: self.entries.remove(k), ..self }
        }
    }

    /// What storing a response leaves behind: expired entries are dropped, the entry that
    /// was used longest ago makes room where the cache is full.
    pub open spec fn after_insert(self, k: u128, response: Seq<u8>, now: u64) -> Self {
        let live = self.live(now);
        let kept = if live.len() >= self.capacity && live.len() > 0 {
            live.remove(oldest(live))
        } else {
            live
        };
        ReadCacheView {
            entries: kept.insert(
                k,
                ResponseView { response, inserted_at: now, order: self.next_order as u64 },
            ),
            next_order: self.next_order + 1,
            ..self
        }
    }

    /// Whether uses are counted apart, and there are no more entries than fit; one always
    /// does.
    pub open spec fn wf(self) -> bool {
        &&& self.entries.dom().finite()
        &&& self.entries.len() <= self.capacity || self.entries.len() <= 1
        &&& forall|k: u128| #[trigger]
            self.entries.contains_key(k) ==> self.entries[k].order < self.next_order
        &&& forall|a: u128, b: u128|
            #![trigger self.entries[a], self.entries[b]]
            self.entries.contains_key(a) && self.entries.contains_key(b) && a != b
                ==> self.entries[a].order != self.entries[b].order
    }

    /// A response is found exactly while no more than its time has passed since it was
    /// stored.
    pub proof fn lemma_found_in_time(self, k: u128, now: u64)
        ensures
            self.hit(k, now) <==> self.entries.contains_key(k) && now
                <= self.entries[k].inserted_at + self.ttl_ms,
            self.live(now).contains_key(k) <==> self.entries.contains_key(k) && now
                <= self.entries[k].inserted_at + self.ttl_ms,
    {
    }

    /// Looking a response up keeps it and when it was stored, so that it is found again
    /// until its time has passed; one whose time has passed is dropped. No other response
    /// is touched.
    pub proof fn lemma_get_keeps(self, k: u128, now: u64, later: u64, other: u128)
        requires
            other != k,
        ensures
            self.hit(k, now) ==> self.after_get(k, now).entries.contains_key(k) && self.after_get(
                k,
                now,
            ).entries[k].response == self.entries[k].response && self.after_get(
                k,
                now,
            ).entries[k].inserted_at == self.entries[k].inserted_at && (self.after_get(k, now).hit(
                k,
                later,
            ) <==> self.hit(k, later)),
            !self.hit(k, now) ==> !self.after_get(k, now).entries.contains_key(k),
            self.after_get(k, now).entries.contains_key(other) == self.entries.contains_key(other),
            self.after_get(k, now).entries[other] == self.entries[other],
            self.after_get(k, now).capacity == self.capacity,
            self.hit(k, now) ==> self.after_get(k, now).next_order == self.next_order + 1,
            self.hit(k, now) && self.next_order <= u64::MAX ==> self.after_get(k, now).entries[k].order
                == self.next_order,
            self.after_get(k, now).ttl_ms == self.ttl_ms,
    {
    }

    /// Storing drops the responses whose time has passed. Of the others none goes while
    /// there is room, and what goes was used longer ago than whatever stays.
    pub proof fn lemma_insert_drops(
        self,
        k: u128,
        response: Seq<u8>,
        now: u64,
        gone: u128,
        kept: u128,
    )
        requires
            self.wf(),
            self.next_order < u64::MAX,
            gone != k,
            kept != k,
        ensures
            ({
                let after = self.after_insert(k, response, now);
                let in_time = self.entries.contains_key(gone) && now
                    <= self.entries[gone].inserted_at + self.ttl_ms;
                &&& !in_time ==> !after.entries.contains_key(gone)
                &&& in_time && self.entries.len() < self.capacity ==> after.entries.contains_key(
                    gone,
                )
                &&& in_time && !after.entries.contains_key(gone) && after.entries.contains_key(kept)
                    ==> self.entries[gone].order < self.entries[kept].order
                &&& after.entries[k].response == response
                &&& after.entries[k].inserted_at == now
                &&& after.entries.contains_key(gone) ==> after.entries[gone] == self.entries[gone]
            }),
    {
        let live = self.live(now);
        self.lemma_insert(k, response, now);
        assert(live.dom().subset_of(self.entries.dom()));
        vstd::set_lib::lemma_len_subset(live.dom(), self.entries.dom());
        if live.contains_key(gone) && live.contains_key(kept) && is_oldest(live, gone) && gone
            != kept {
            assert(live[gone].order <= live[kept].order);
            assert(self.entries[gone].order != self.entries[kept].order);
        }
    }

    /// A response that was just stored is found until its time has passed.
    pub proof fn lemma_get_after_insert(self, k: u128, response: Seq<u8>, now: u64, later: u64)
        requires
            age(later, now) <= self.ttl_ms,
        ensures
            self.after_insert(k, response, now).hit(k, later),
            self.after_insert(k, response, now).entries[k].response == response,
    {
    }

    /// Storing a response keeps the cache in order. The stored response is the most recently
    /// used one. Of the others those stay that are young enough, as they are, but for the one
    /// that was used longest ago where the cache is full.
    pub proof fn lemma_insert(self, k: u128, response: Seq<u8>, now: u64)
        requires
            self.wf(),
            self.next_order < u64::MAX,
        ensures
            ({
                let live = self.live(now);
                let full = live.len() >= self.capacity;
                let after = self.after_insert(k, response, now);
                &&& after.wf()
                &&& after.entries.contains_key(k)
                &&& after.entries[k].response == response
                &&& forall|j: u128|
                    j != k ==> (#[trigger] after.entries.contains_key(j) <==> live.contains_key(j)
                        && !(full && is_oldest(live, j)))
                &&& forall|j: u128| #[trigger]
                    after.entries.contains_key(j) && j != k ==> after.entries[j] == self.entries[j]
                        && after.entries[j].order < after.entries[k].order
                &&& after.entries.len() <= self.capacity || after.entries.len() <= 1
            }),
    {
        let live = self.live(now);
        let after = self.after_insert(k, response, now);
        assert(live.dom().subset_of(self.entries.dom()));
        vstd::set_lib::lemma_len_subset(live.dom(), self.entries.dom());
        assert forall|j: u128| live.contains_key(j) implies live[j] == self.entries[j]
            && self.entries.contains_key(j) by {}
        if live.len() > 0 {
            lemma_oldest(live);
            let o = oldest(live);
            assert forall|j: u128| is_oldest(live, j) implies j == o by {
                assert(live[j].order <= live[o].order && live[o].order <= live[j].order);
                assert(self.entries[j].order == self.entries[o].order);
            }
        } else {
            live.dom().lemma_len0_is_empty();
            assert forall|j: u128| !live.contains_key(j) by {
                assert(!live.dom().contains(j));
            }
        }
    }
}

/// Whether no entry was used before that of `k`.
pub open spec fn is_oldest(m: Map<u128, ResponseView>, k: u128) -> bool {
    m.contains_key(k) && forall|j: u128| #[trigger]
        m.contains_key(j) ==> m[k].order <= m[j].order
}

/// The key of the entry that was used longest ago.
pub open spec fn oldest(m: Map<u128, ResponseView>) -> u128 {
    choose|k: u128| is_oldest(m, k)
}

proof fn lemma_exists_oldest(m: Map<u128, ResponseView>)
    requires
        m.dom().finite(),
        m.len() > 0,
    ensures
        exists|k: u128| is_oldest(m, k),
    decreases m.len(),
{
    let a = m.dom().choose();
    assert(m.contains_key(a));
    if m.len() == 1 {
        assert forall|j: u128| m.contains_key(j) implies m[a].order <= m[j].order by {
            if j != a {
                m.dom().remove(a).lemma_len0_is_empty();
                assert(m.dom().remove(a).contains(j));
            }
        }
        assert(is_oldest(m, a));
    } else {
        let rest = m.remove(a);
        lemma_exists_oldest(rest);
        let b = choose|k: u128| is_oldest(rest, k);
        if m[a].order <= m[b].order {
            assert forall|j: u128| m.contains_key(j) implies m[a].order <= m[j].order by {
                if j != a {
                    assert(rest.contains_key(j));
                }
            }
            assert(is_oldest(m, a));
        } else {
            assert forall|j: u128| m.contains_key(j) implies m[b].order <= m[j].order by {
                if j != a {
                    assert(rest.contains_key(j));
                }
            }
            assert(is_oldest(m, b));
        }
    }
}

proof fn lemma_oldest(live: Map<u128, ResponseView>)
    requires
        live.dom().finite(),
        live.len() > 0,
    ensures
        is_oldest(live, oldest(live)),
{
    lemma_exists_oldest(live);
}

impl View for CachedResponse {
    type V = ResponseView;

    closed spec fn view(&self) -> ResponseView {
        ResponseView {
            response: self.response@,
            inserted_at: self.inserted_at,
            order: self.order,
        }
    }
}

/// Read responses, the most recently used kept longest.
pub struct ReadResponseCache {
    entries: Table<CachedResponse>,
    capacity: usize,
    ttl_ms: u64,
    next_order: u64,
}

impl View for ReadResponseCache {
    type V = ReadCacheView;

    closed spec fn view(&self) -> ReadCacheView {
        ReadCacheView {
            entries: self.entries@.map_values(|e: CachedResponse| e@),
            capacity: self.capacity as nat,
            ttl_ms: self.ttl_ms as nat,
            next_order: self.next_order as nat,
        }
    }
}

impl ReadResponseCache {
    pub closed spec fn wf(&self) -> bool {
        self.entries.wf() && self@.wf()
    }

    /// The cache is in order.
    pub proof fn lemma_wf(&self)
        requires
            self.wf(),
        ensures
            self@.wf(),
    {
    }

    /// Creates a cache with the given capacity and time to live in milliseconds.
    pub fn new(capacity: usize, ttl_ms: u64) -> (r: Self)
        ensures
            r.wf(),
            r@ == (ReadCacheView {
                entries: Map::empty(),
                capacity: capacity as nat,
                ttl_ms: ttl_ms as nat,
                next_order: 0,
            }),
    {
        let r = ReadResponseCache { entries: Table::new(), capacity, ttl_ms, next_order: 0 };
        assert(r@.entries =~= Map::empty());
        r
    }

    /// Creates a cache for 1024 responses that live five seconds.
    pub fn default_cache() -> (r: Self)
        ensures
            r.wf(),
            r@ == (ReadCacheView {
                entries: Map::empty(),
                capacity: 1024,
                ttl_ms: 5000,
                next_order: 0,
            }),
    {
        ReadResponseCache::new(1024, 5000)
    }

    fn is_fresh(&self, inserted_at: u64, now: u64) -> (r: bool)
        ensures
            r == (age(now, inserted_at) <= self@.ttl_ms),
    {
        now.saturating_sub(inserted_at) <= self.ttl_ms
    }

    /// Looks up a response at the time `now`. A used entry counts as the most recently
    /// used; an expired one is dropped.
    pub fn get(&mut self, key: CacheKey, now: u64) -> (r: Option<Vec<u8>>)
        requires
            old(self).wf(),
            old(self)@.next_order < u64::MAX,
        ensures
            final(self).wf(),
            final(self)@ == old(self)@.after_get(cache_key(key), now),
            match r {
                Some(v) => old(self)@.hit(cache_key(key), now)
                    && v@ == old(self)@.entries[cache_key(key)].response,
                None => !old(self)@.hit(cache_key(key), now),
            },
    {
        let k: u128 = pack_key(key);
        let usable = match self.entries.get(k) {
            Some(e) => self.is_fresh(e.inserted_at, now),
            None => false,
        };
        if !usable {
            self.entries.remove(k);
            assert(self@.entries =~= old(self)@.entries.remove(k));
            return None;
        }
        let order: u64 = self.next_order;
        let response = match self.entries.get_mut(k) {
            Some(e) => {
                e.order = order;
                slice_to_vec(e.response.as_slice())
            },
            None => Vec::new(),
        };
        self.next_order = order + 1;
        assert(self@.entries =~= old(self)@.after_get(k, now).entries);
        Some(response)
    }

    /// Stores a response at the time `now`.
    pub fn insert(&mut self, key: CacheKey, response: Vec<u8>, now: u64)
        requires
            old(self).wf(),
            old(self)@.next_order < u64::MAX,
        ensures
            final(self).wf(),
            final(self)@ == old(self)@.after_insert(cache_key(key), response@, now),
    {
        let k: u128 = pack_key(key);
        proof {
            self@.lemma_insert(k, response@, now);
        }
        self.remove_expired(now);
        let ghost live = self@.entries;
        proof {
            assert(live.dom() =~= self.entries@.dom());
        }
        if self.entries.len() >= self.capacity {
            match self.find_lru_key() {
                Some(lru) => {
                    proof {
                        lemma_exists_oldest(live);
                        let o = oldest(live);
                        assert(is_oldest(live, o));
                        assert(live.contains_key(lru) && live.contains_key(o));
                        assert(live[lru].order <= live[o].order);
                    }
                    self.entries.remove(lru);
                    assert(self@.entries =~= live.remove(lru));
                },
                None => {},
            }
        }
        let order: u64 = self.next_order;
        self.next_order = order + 1;
        self.entries.insert(k, CachedResponse { response, inserted_at: now, order });
        assert(self@.entries =~= old(self)@.after_insert(k, response@, now).entries);
    }

    /// Drops every expired entry.
    pub fn remove_expired(&mut self, now: u64)
        requires
            old(self).wf(),
        ensures
            final(self).wf(),
            final(self)@ == (ReadCacheView { entries: old(self)@.live(now), ..old(self)@ }),
    {
        let mut dead: Vec<u128> = Vec::new();
        let n: usize = self.entries.len();
        let mut i: usize = 0;
        proof {
            self.entries.lemma_positions();
        }
        while i < n
            invariant
                i <= n,
                n == self.entries.key_seq().len(),
                self.wf(),
                *self == *old(self),
                forall|j: int|
                    0 <= j < dead@.len() ==> self@.entries.contains_key(#[trigger] dead@[j])
                        && !self@.fresh(self@.entries[dead@[j]], now),
                forall|p: int|
                    0 <= p < i && !self@.fresh(
                        self@.entries[self.entries.key_seq()[p]],
                        now,
                    ) ==> dead@.contains(#[trigger] self.entries.key_seq()[p]),
            decreases n - i,
        {
            proof {
                self.entries.lemma_positions();
            }
            let k: u128 = self.entries.key_at(i);
            let t: u64 = self.entries.val_at(i).inserted_at;
            if !self.is_fresh(t, now) {
                let ghost was = dead@;
                dead.push(k);
                proof {
                    assert(dead@[was.len() as int] == k);
                    assert forall|x: u128| was.contains(x) implies dead@.contains(x) by {
                        let j = choose|j: int| 0 <= j < was.len() && was[j] == x;
                        assert(dead@[j] == x);
                    }
                }
            }
            i = i + 1;
        }
        self.entries.remove_all(&dead);
        proof {
            old(self).entries.lemma_positions();
            assert forall|k: u128| old(self)@.entries.contains_key(k) implies dead@.to_set().contains(
                k,
            ) == !old(self)@.fresh(old(self)@.entries[k], now) by {
                assert(old(self).entries@.contains_key(k));
                let p = choose|p: int|
                    0 <= p < old(self).entries.key_seq().len() && old(self).entries.key_seq()[p]
                        == k && old(self).entries.val_seq()[p] == old(self).entries@[k];
                assert(old(self).entries.key_seq()[p] == k);
            }
            assert(self@.entries =~= old(self)@.live(now));
            assert(self@.entries.dom().subset_of(old(self)@.entries.dom()));
            vstd::set_lib::lemma_len_subset(self@.entries.dom(), old(self)@.entries.dom());
        }
    }

    /// Drops every entry.
    pub fn clear(&mut self)
        requires
            old(self).wf(),
        ensures
            final(self).wf(),
            final(self)@ == (ReadCacheView { entries: Map::empty(), ..old(self)@ }),
    {
        self.entries = Table::new();
        assert(self@.entries =~= Map::empty());
    }

    pub fn len(&self) -> (r: usize)
        requires
            self.wf(),
        ensures
            r == self@.entries.len(),
            r <= self@.capacity || r <= 1,
    {
        assert(self@.entries.dom() =~= self.entries@.dom());
        self.entries.len()
    }

    pub fn is_empty(&self) -> (r: bool)
        requires
            self.wf(),
        ensures
            r == (self@.entries.len() == 0),
    {
        self.len() == 0
    }

    /// How many uses have been counted.
    pub fn uses(&self) -> (r: u64)
        ensures
            r == self@.next_order,
    {
        self.next_order
    }

    fn find_lru_key(&self) -> (r: Option<u128>)
        requires
            self.wf(),
        ensures
            match r {
                Some(k) => is_oldest(self@.entries, k),
                None => self@.entries.len() == 0,
            },
    {
        let n: usize = self.entries.len();
        proof {
            self.entries.lemma_positions();
            assert(self@.entries.dom() =~= self.entries@.dom());
        }
        if n == 0 {
            return None;
        }
        let mut best: usize = 0;
        let mut i: usize = 1;
        while i < n
            invariant
                1 <= i <= n,
                best < i,
                n == self.entries.key_seq().len(),
                n == self.entries.val_seq().len(),
                self.wf(),
                forall|p: int|
                    0 <= p < i ==> self.entries.val_seq()[best as int].order <= (
                    #[trigger] self.entries.val_seq()[p]).order,
            decreases n - i,
        {
            if self.entries.val_at(i).order < self.entries.val_at(best).order {
                best = i;
            }
            i = i + 1;
        }
        let k: u128 = self.entries.key_at(best);
        proof {
            assert forall|j: u128| #[trigger] self@.entries.contains_key(j) implies self@.entries[k].order
                <= self@.entries[j].order by {
                assert(self.entries@.contains_key(j));
                let p = choose|p: int|
                    0 <= p < self.entries.key_seq().len() && self.entries.key_seq()[p] == j
                        && self.entries.val_seq()[p] == self.entries@[j];
                assert(self.entries.val_seq()[p].order >= self.entries.val_seq()[best as int].order);
            }
        }
        Some(k)
    }
}

} // verus!
