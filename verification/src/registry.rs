//! The devices of the pod, and which of them suits a placement best.
use crate::types::{DeviceKind, DeviceProfile};
use vstd::prelude::*;

verus! {

/// Whether no device is listed twice.
pub open spec fn distinct(profiles: Seq<DeviceProfile>) -> bool {
    forall|i: int, j: int|
        0 <= i < j < profiles.len() ==> (#[trigger] profiles[i]).device_key != (
        #[trigger] profiles[j]).device_key
}

/// Whether a device is the one with the given key.
pub open spec fn is_at(profiles: Seq<DeviceProfile>, i: int, key: (u16, u16)) -> bool {
    0 <= i < profiles.len() && profiles[i].device_key == key
}

/// Whether a device is listed.
pub open spec fn is_listed(profiles: Seq<DeviceProfile>, key: (u16, u16)) -> bool {
    exists|i: int| #[trigger] is_at(profiles, i, key)
}

/// The devices with one added, or replaced.
pub open spec fn with_profile(profiles: Seq<DeviceProfile>, profile: DeviceProfile) -> Seq<
    DeviceProfile,
> {
    if is_listed(profiles, profile.device_key) {
        profiles.map_values(
            |p: DeviceProfile|
                if p.device_key == profile.device_key {
                    profile
                } else {
                    p
                },
        )
    } else {
        profiles.push(profile)
    }
}

/// The devices with several added, or replaced, one after the other.
pub open spec fn with_profiles(profiles: Seq<DeviceProfile>, more: Seq<DeviceProfile>) -> Seq<
    DeviceProfile,
>
    decreases more.len(),
{
    if more.len() == 0 {
        profiles
    } else {
        with_profile(with_profiles(profiles, more.drop_last()), more.last())
    }
}

/// The devices with the load of one brought up to date.
pub open spec fn with_load(
    profiles: Seq<DeviceProfile>,
    key: (u16, u16),
    used_bytes: u64,
    recent_rps: u32,
) -> Seq<DeviceProfile> {
    profiles.map_values(
        |p: DeviceProfile|
            if p.device_key == key {
                DeviceProfile { used_bytes, recent_rps, ..p }
            } else {
                p
            },
    )
}

/// Whether a device can host a region: it has so much space left, and is of the wanted kind
/// where one is wanted.
pub open spec fn suits(p: DeviceProfile, pin: Option<DeviceKind>, size: u64) -> bool {
    p.spec_free() >= size && (pin matches Some(kind) ==> p.kind == kind)
}

/// Whether a device suits best: no other that suits has a lower score, nor the same one
/// further in front.
pub open spec fn is_best(
    profiles: Seq<DeviceProfile>,
    scores: Seq<u64>,
    pin: Option<DeviceKind>,
    size: u64,
    i: int,
) -> bool {
    &&& 0 <= i < profiles.len()
    &&& suits(profiles[i], pin, size)
    &&& forall|j: int|
        0 <= j < profiles.len() && suits(#[trigger] profiles[j], pin, size) ==> scores[i]
            <= scores[j] && (j < i ==> scores[i] < scores[j])
}

/// The device that suits best.
pub open spec fn best(
    profiles: Seq<DeviceProfile>,
    scores: Seq<u64>,
    pin: Option<DeviceKind>,
    size: u64,
) -> Option<(u16, u16)> {
    if exists|i: int| is_best(profiles, scores, pin, size, i) {
        Some(profiles[choose|i: int| is_best(profiles, scores, pin, size, i)].device_key)
    } else {
        None
    }
}

/// The best device suits, and there is one where any device suits.
pub proof fn lemma_best(
    profiles: Seq<DeviceProfile>,
    scores: Seq<u64>,
    pin: Option<DeviceKind>,
    size: u64,
)
    ensures
        best(profiles, scores, pin, size) is Some ==> exists|i: int| #[trigger]
            is_at(profiles, i, best(profiles, scores, pin, size)->0) && suits(
                profiles[i],
                pin,
                size,
            ),
        best(profiles, scores, pin, size) is None ==> forall|i: int|
            0 <= i < profiles.len() ==> !suits(#[trigger] profiles[i], pin, size),
{
    if exists|i: int| is_best(profiles, scores, pin, size, i) {
        let i = choose|i: int| is_best(profiles, scores, pin, size, i);
        assert(is_at(profiles, i, best(profiles, scores, pin, size)->0));
    } else {
        if exists|i: int| 0 <= i < profiles.len() && suits(#[trigger] profiles[i], pin, size) {
            let i = choose|i: int|
                0 <= i < profiles.len() && suits(#[trigger] profiles[i], pin, size);
            lemma_best_below(profiles, scores, pin, size, profiles.len() as int, i);
        }
    }
}

/// A picked device has room for the region beside what is in use on it, and is of the wanted
/// kind. No other device with room and of that kind has a lower score, nor the same score
/// further in front.
pub proof fn lemma_picked_has_room(
    profiles: Seq<DeviceProfile>,
    scores: Seq<u64>,
    pin: Option<DeviceKind>,
    size: u64,
) -> (i: int)
    requires
        best(profiles, scores, pin, size) is Some,
    ensures
        0 <= i < profiles.len(),
        best(profiles, scores, pin, size) == Some(profiles[i].device_key),
        size == 0 || profiles[i].capacity_bytes - profiles[i].used_bytes >= size,
        pin matches Some(kind) ==> profiles[i].kind == kind,
        forall|j: int|
            0 <= j < profiles.len() && (#[trigger] profiles[j]).capacity_bytes
                - profiles[j].used_bytes >= size && (pin matches Some(kind) ==> profiles[j].kind
                == kind) ==> scores[i] <= scores[j] && (j < i ==> scores[i] < scores[j]),
{
    let i = choose|i: int| is_best(profiles, scores, pin, size, i);
    assert(is_best(profiles, scores, pin, size, i));
    i
}

/// Where no device is picked, none has room and is of the wanted kind.
pub proof fn lemma_none_has_room(
    profiles: Seq<DeviceProfile>,
    scores: Seq<u64>,
    pin: Option<DeviceKind>,
    size: u64,
    i: int,
)
    requires
        best(profiles, scores, pin, size) is None,
        0 <= i < profiles.len(),
    ensures
        profiles[i].capacity_bytes - profiles[i].used_bytes < size || (pin matches Some(kind)
            && profiles[i].kind != kind),
{
    lemma_best(profiles, scores, pin, size);
    assert(!suits(profiles[i], pin, size));
}

/// Adding a device lists it, in place of what was listed under its key, and changes no
/// other. A change of its load changes nothing else of it.
pub proof fn lemma_one_device(
    profiles: Seq<DeviceProfile>,
    profile: DeviceProfile,
    used_bytes: u64,
    recent_rps: u32,
    i: int,
)
    requires
        distinct(profiles),
        0 <= i < profiles.len(),
    ensures
        with_profile(profiles, profile).contains(profile),
        profiles[i].device_key != profile.device_key ==> with_profile(profiles, profile)[i]
            == profiles[i],
        profiles[i].device_key == profile.device_key ==> with_profile(profiles, profile)[i]
            == profile && with_profile(profiles, profile).len() == profiles.len(),
        ({
            let key = profile.device_key;
            let after = with_load(profiles, key, used_bytes, recent_rps)[i];
            &&& with_load(profiles, key, used_bytes, recent_rps).len() == profiles.len()
            &&& profiles[i].device_key != key ==> after == profiles[i]
            &&& profiles[i].device_key == key ==> after.used_bytes == used_bytes
                && after.recent_rps == recent_rps && after.device_key == key
                && after.capacity_bytes == profiles[i].capacity_bytes && after.kind
                == profiles[i].kind && after.tier == profiles[i].tier
        }),
{
    let all = with_profile(profiles, profile);
    if is_listed(profiles, profile.device_key) {
        let k = choose|k: int| #[trigger] is_at(profiles, k, profile.device_key);
        assert(all[k] == profile);
    } else {
        assert(all[profiles.len() as int] == profile);
        assert(!is_at(profiles, i, profile.device_key));
    }
    if profiles[i].device_key == profile.device_key {
        assert(is_at(profiles, i, profile.device_key));
    }
}

/// Of several devices that are added, each is listed that no later one replaces.
pub proof fn lemma_all_added(profiles: Seq<DeviceProfile>, more: Seq<DeviceProfile>, k: int)
    requires
        0 <= k < more.len(),
        forall|j: int| k < j < more.len() ==> (#[trigger] more[j]).device_key != more[k].device_key,
    ensures
        with_profiles(profiles, more).contains(more[k]),
    decreases more.len(),
{
    let l = more.drop_last();
    let before = with_profiles(profiles, l);
    let last = more.last();
    let after = with_profiles(profiles, more);
    if k == l.len() {
        if is_listed(before, last.device_key) {
            let i = choose|i: int| #[trigger] is_at(before, i, last.device_key);
            assert(after[i] == last);
        } else {
            assert(after[before.len() as int] == last);
        }
    } else {
        assert forall|j: int| k < j < l.len() implies (#[trigger] l[j]).device_key
            != l[k].device_key by {
            assert(more[j].device_key != more[k].device_key);
        }
        lemma_all_added(profiles, l, k);
        assert(more[more.len() - 1].device_key != more[k].device_key);
        let i = choose|i: int| 0 <= i < before.len() && before[i] == l[k];
        assert(after[i] == more[k]);
    }
}

/// Among the first `n` devices one suits best where one suits.
proof fn lemma_best_below(
    profiles: Seq<DeviceProfile>,
    scores: Seq<u64>,
    pin: Option<DeviceKind>,
    size: u64,
    n: int,
    some: int,
)
    requires
        0 <= some < n <= profiles.len(),
        suits(profiles[some], pin, size),
    ensures
        exists|i: int| is_best(profiles.take(n), scores, pin, size, i),
        n == profiles.len() ==> exists|i: int| is_best(profiles, scores, pin, size, i),
    decreases n,
{
    let top = profiles.take(n);
    let last = n - 1;
    let earlier = exists|j: int| 0 <= j < last && suits(#[trigger] profiles[j], pin, size);
    if earlier {
        let j = choose|j: int| 0 <= j < last && suits(#[trigger] profiles[j], pin, size);
        lemma_best_below(profiles, scores, pin, size, last, j);
        let b = choose|i: int| is_best(profiles.take(last), scores, pin, size, i);
        let w = if suits(profiles[last], pin, size) && scores[last] < scores[b] {
            last
        } else {
            b
        };
        assert forall|k: int| 0 <= k < n && suits(#[trigger] top[k], pin, size) implies scores[w]
            <= scores[k] && (k < w ==> scores[w] < scores[k]) by {
            if k < last {
                assert(profiles.take(last)[k] == top[k]);
            }
        }
        assert(is_best(top, scores, pin, size, w));
    } else {
        assert(some == last);
        assert forall|k: int| 0 <= k < n && suits(#[trigger] top[k], pin, size) implies k == last by {
            assert(top[k] == profiles[k]);
        }
        assert(is_best(top, scores, pin, size, last));
    }
    if n == profiles.len() {
        assert(top =~= profiles);
    }
}

/// The devices of all nodes.
pub struct DeviceRegistry {
    profiles: Vec<DeviceProfile>,
}

impl View for DeviceRegistry {
    type V = Seq<DeviceProfile>;

    closed spec fn view(&self) -> Seq<DeviceProfile> {
        self.profiles@
    }
}

impl DeviceRegistry {
    pub closed spec fn wf(&self) -> bool {
        distinct(self.profiles@)
    }

    /// No device is listed twice.
    pub proof fn lemma_wf(&self)
        requires
            self.wf(),
        ensures
            distinct(self@),
    {
    }

    pub fn new() -> (r: Self)
        ensures
            r.wf(),
            r@ == Seq::<DeviceProfile>::empty(),
    {
        let r = DeviceRegistry { profiles: Vec::new() };
        assert(r@ =~= Seq::<DeviceProfile>::empty());
        r
    }

    fn position(&self, key: (u16, u16)) -> (r: Option<usize>)
        ensures
            match r {
                Some(i) => is_at(self@, i as int, key),
                None => !is_listed(self@, key),
            },
    {
        let mut i: usize = 0;
        while i < self.profiles.len()
            invariant
                i <= self.profiles@.len(),
                forall|j: int| 0 <= j < i ==> !#[trigger] is_at(self@, j, key),
            decreases self.profiles@.len() - i,
        {
            if self.profiles[i].device_key.0 == key.0 && self.profiles[i].device_key.1 == key.1 {
                return Some(i);
            }
            assert(!is_at(self@, i as int, key));
            i = i + 1;
        }
        None
    }

    /// Adds a device, or replaces it.
    pub fn register(&mut self, profile: DeviceProfile)
        requires
            old(self).wf(),
        ensures
            final(self).wf(),
            final(self)@ == with_profile(old(self)@, profile),
    {
        match self.position(profile.device_key) {
            Some(i) => {
                self.profiles.set(i, profile);
                assert(self@ =~= with_profile(old(self)@, profile));
            },
            None => {
                proof {
                    assert forall|j: int| 0 <= j < self@.len() implies (
                    #[trigger] self@[j]).device_key != profile.device_key by {
                        assert(!is_at(self@, j, profile.device_key));
                    }
                }
                self.profiles.push(profile);
            },
        }
    }

    /// Adds several devices, or replaces them.
    pub fn register_all(&mut self, new_profiles: Vec<DeviceProfile>)
        requires
            old(self).wf(),
        ensures
            final(self).wf(),
            final(self)@ == with_profiles(old(self)@, new_profiles@),
    {
        let mut i: usize = 0;
        proof {
            assert(new_profiles@.take(0) =~= Seq::empty());
        }
        while i < new_profiles.len()
            invariant
                i <= new_profiles@.len(),
                self.wf(),
                self@ == with_profiles(old(self)@, new_profiles@.take(i as int)),
            decreases new_profiles@.len() - i,
        {
            proof {
                assert(new_profiles@.take(i + 1).drop_last() =~= new_profiles@.take(i as int));
            }
            self.register(new_profiles[i]);
            i = i + 1;
        }
        assert(new_profiles@.take(i as int) =~= new_profiles@);
    }

    /// Looks up a device.
    pub fn get(&self, node_id: u16, device_id: u16) -> (r: Option<DeviceProfile>)
        ensures
            match r {
                Some(p) => self@.contains(p) && p.device_key == (node_id, device_id),
                None => !is_listed(self@, (node_id, device_id)),
            },
    {
        match self.position((node_id, device_id)) {
            Some(i) => {
                assert(self@.contains(self@[i as int]));
                Some(self.profiles[i])
            },
            None => None,
        }
    }

    /// All devices.
    pub fn list(&self) -> (r: Vec<DeviceProfile>)
        ensures
            r@ == self@,
    {
        let mut out: Vec<DeviceProfile> = Vec::new();
        let mut i: usize = 0;
        while i < self.profiles.len()
            invariant
                i <= self.profiles@.len(),
                out@ == self.profiles@.take(i as int),
            decreases self.profiles@.len() - i,
        {
            out.push(self.profiles[i]);
            assert(out@ =~= self.profiles@.take(i + 1));
            i = i + 1;
        }
        assert(out@ =~= self.profiles@);
        out
    }

    /// Brings the load of a device up to date.
    pub fn update_dynamic(&mut self, node_id: u16, device_id: u16, used_bytes: u64, recent_rps: u32)
        requires
            old(self).wf(),
        ensures
            final(self).wf(),
            final(self)@ == with_load(old(self)@, (node_id, device_id), used_bytes, recent_rps),
    {
        let ghost key = (node_id, device_id);
        match self.position((node_id, device_id)) {
            Some(i) => {
                let p = self.profiles[i];
                self.profiles.set(i, DeviceProfile { used_bytes, recent_rps, ..p });
                assert(self@ =~= with_load(old(self)@, key, used_bytes, recent_rps));
            },
            None => {
                proof {
                    assert forall|j: int| 0 <= j < self@.len() implies (
                    #[trigger] self@[j]).device_key != key by {
                        assert(!is_at(self@, j, key));
                    }
                    assert(self@ =~= with_load(self@, key, used_bytes, recent_rps));
                }
            },
        }
    }

    /// The device that suits a placement best: of those with enough space, and of the wanted
    /// kind, the first with the lowest score. There is one score for each device.
    pub fn best_device(&self, scores: &Vec<u64>, pin: Option<DeviceKind>, size: u64) -> (r: Option<
        (u16, u16),
    >)
        requires
            self.wf(),
            scores@.len() == self@.len(),
        ensures
            r == best(self@, scores@, pin, size),
            match r {
                Some(key) => exists|i: int|
                    0 <= i < self@.len() && (#[trigger] self@[i]).device_key == key && (size == 0
                        || self@[i].capacity_bytes - self@[i].used_bytes >= size) && (pin matches
                        Some(kind) ==> self@[i].kind == kind),
                None => forall|i: int|
                    0 <= i < self@.len() ==> (#[trigger] self@[i]).capacity_bytes
                        - self@[i].used_bytes < size || (pin matches Some(kind) && self@[i].kind
                        != kind),
            },
    {
        let ghost all = self@;
        let mut found: Option<usize> = None;
        let mut i: usize = 0;
        while i < self.profiles.len()
            invariant
                i <= self.profiles@.len(),
                all == self.profiles@,
                scores@.len() == all.len(),
                match found {
                    Some(b) => {
                        &&& b < i
                        &&& suits(all[b as int], pin, size)
                        &&& forall|j: int|
                            0 <= j < i && suits(#[trigger] all[j], pin, size) ==> scores@[b as int]
                                <= scores@[j] && (j < b ==> scores@[b as int] < scores@[j])
                    },
                    None => forall|j: int| 0 <= j < i ==> !suits(#[trigger] all[j], pin, size),
                },
            decreases self.profiles@.len() - i,
        {
            let p = &self.profiles[i];
            let right_kind = match pin {
                Some(kind) => p.kind == kind,
                None => true,
            };
            if p.free_bytes() >= size && right_kind {
                match found {
                    Some(b) => {
                        if scores[i] < scores[b] {
                            found = Some(i);
                        }
                    },
                    None => {
                        found = Some(i);
                    },
                }
            }
            i = i + 1;
        }
        match found {
            Some(b) => {
                proof {
                    assert(is_best(all, scores@, pin, size, b as int));
                    let c = choose|c: int| is_best(all, scores@, pin, size, c);
                    assert(is_best(all, scores@, pin, size, c));
                    assert(suits(all[c], pin, size));
                    assert(suits(all[b as int], pin, size));
                    assert(c == b);
                }
                assert(self@[b as int].device_key == all[b as int].device_key);
                Some(self.profiles[b].device_key)
            },
            None => None,
        }
    }

    /// Removes the devices of a node.
    pub fn remove_node(&mut self, node_id: u16)
        requires
            old(self).wf(),
        ensures
            final(self).wf(),
            final(self)@ == old(self)@.filter(|p: DeviceProfile| p.device_key.0 != node_id),
    {
        let ghost all = self.profiles@;
        let ghost stay = |p: DeviceProfile| p.device_key.0 != node_id;
        let mut keep: Vec<DeviceProfile> = Vec::new();
        let mut i: usize = 0;
        proof {
            reveal(Seq::filter);
            assert(all.take(0) =~= Seq::empty());
        }
        while i < self.profiles.len()
            invariant
                i <= self.profiles@.len(),
                all == self.profiles@,
                distinct(all),
                stay == (|p: DeviceProfile| p.device_key.0 != node_id),
                keep@ == all.take(i as int).filter(stay),
                distinct(keep@),
                forall|q: int|
                    0 <= q < keep@.len() ==> exists|p: int|
                        0 <= p < i && #[trigger] all[p] == #[trigger] keep@[q],
            decreases self.profiles@.len() - i,
        {
            let ghost had = keep@;
            proof {
                reveal(Seq::filter);
                assert(all.take(i + 1).drop_last() =~= all.take(i as int));
                assert(all.take(i + 1).last() == all[i as int]);
            }
            if self.profiles[i].device_key.0 != node_id {
                keep.push(self.profiles[i]);
                proof {
                    assert forall|a: int, b: int| 0 <= a < b < keep@.len() implies (
                    #[trigger] keep@[a]).device_key != (#[trigger] keep@[b]).device_key by {
                        if b == had.len() {
                            assert(keep@[a] == had[a]);
                            let p = choose|p: int| 0 <= p < i && #[trigger] all[p] == had[a];
                            assert(all[p].device_key != all[i as int].device_key);
                        } else {
                            assert(keep@[a] == had[a] && keep@[b] == had[b]);
                        }
                    }
                }
            }
            proof {
                assert forall|q: int| 0 <= q < keep@.len() implies exists|p: int|
                    0 <= p < i + 1 && #[trigger] all[p] == #[trigger] keep@[q] by {
                    if q < had.len() {
                        assert(keep@[q] == had[q]);
                        let p = choose|p: int| 0 <= p < i && #[trigger] all[p] == had[q];
                        assert(all[p] == keep@[q]);
                    } else {
                        assert(all[i as int] == keep@[q]);
                    }
                }
            }
            i = i + 1;
        }
        assert(all.take(i as int) =~= all);
        self.profiles = keep;
    }
}

} // verus!
