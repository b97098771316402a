//! Tables keyed by an integer: a hash index over densely stored entries.
use dashmap::DashMap;
use vstd::prelude::*;

verus! {

/// `dashmap::DashMap`, a hash map. Opaque: what it holds is `index_contents`.
#[verifier::external_type_specification]
#[verifier::external_body]
#[verifier::reject_recursive_types(K)]
#[verifier::reject_recursive_types(V)]
#[verifier::reject_recursive_types(S)]
pub struct ExDashMap<K, V, S>(DashMap<K, V, S>);

/// The pairs that a hash map holds.
pub uninterp spec fn index_contents(m: DashMap<u128, usize>) -> Map<u128, usize>;

/// `DashMap::new`: an empty map.
#[verifier::external_body]
fn index_new() -> (r: DashMap<u128, usize>)
    ensures
        index_contents(r).dom() == Set::<u128>::empty(),
{
    DashMap::new()
}

/// `DashMap::insert`: the key stands for the value afterwards; the value that it stood
/// for before is returned.
#[verifier::external_body]
fn index_insert(m: &mut DashMap<u128, usize>, key: u128, value: usize) -> (r: Option<usize>)
    ensures
        index_contents(*final(m)) == index_contents(*old(m)).insert(key, value),
        r == (if index_contents(*old(m)).contains_key(key) {
            Some(index_contents(*old(m))[key])
        } else {
            None
        }),
{
    m.insert(key, value)
}

/// `DashMap::get`: the value that the key stands for, copied out of the guard.
#[verifier::external_body]
fn index_get(m: &DashMap<u128, usize>, key: u128) -> (r: Option<usize>)
    ensures
        r == (if index_contents(*m).contains_key(key) {
            Some(index_contents(*m)[key])
        } else {
            None
        }),
{
    m.get(&key).map(|slot| *slot)
}

/// `DashMap::remove`: the key stands for nothing afterwards; the pair that it made
/// before is returned.
#[verifier::external_body]
fn index_remove(m: &mut DashMap<u128, usize>, key: u128) -> (r: Option<(u128, usize)>)
    ensures
        index_contents(*final(m)) == index_contents(*old(m)).remove(key),
        r == (if index_contents(*old(m)).contains_key(key) {
            Some((key, index_contents(*old(m))[key]))
        } else {
            None
        }),
{
    m.remove(&key)
}

/// A map from integers to values that can be walked by position.
pub struct Table<V> {
    index: DashMap<u128, usize>,
    keys: Vec<u128>,
    vals: Vec<V>,
}

impl<V> Table<V> {
    /// The keys, in the order of their positions.
    pub closed spec fn key_seq(&self) -> Seq<u128> {
        self.keys@
    }

    /// The values, in the order of their keys' positions.
    pub closed spec fn val_seq(&self) -> Seq<V> {
        self.vals@
    }

    /// Whether index and entries agree.
    pub closed spec fn wf(&self) -> bool {
        &&& self.keys@.len() == self.vals@.len()
        &&& forall|i: int|
            #![trigger self.keys@[i]]
            0 <= i < self.keys@.len() ==> index_contents(self.index).contains_key(self.keys@[i])
                && index_contents(self.index)[self.keys@[i]] == i
        &&& forall|k: u128| #[trigger]
            index_contents(self.index).contains_key(k) ==> {
                let i = index_contents(self.index)[k] as int;
                0 <= i < self.keys@.len() && self.keys@[i] == k
            }
    }

    pub closed spec fn map(&self) -> Map<u128, V> {
        Map::new(
            |k: u128| index_contents(self.index).contains_key(k),
            |k: u128| self.vals@[index_contents(self.index)[k] as int],
        )
    }

    /// Positions, keys and values fit together.
    pub proof fn lemma_positions(&self)
        requires
            self.wf(),
        ensures
            self.key_seq().len() == self.val_seq().len(),
            self.key_seq().no_duplicates(),
            forall|i: int|
                0 <= i < self.key_seq().len() ==> self@.contains_key(#[trigger] self.key_seq()[i])
                    && self@[self.key_seq()[i]] == self.val_seq()[i],
            forall|k: u128| #[trigger]
                self@.contains_key(k) ==> exists|i: int|
                    0 <= i < self.key_seq().len() && self.key_seq()[i] == k && self.val_seq()[i]
                        == self@[k],
            self@.dom() == self.key_seq().to_set(),
            self@.dom().finite(),
            self@.dom().len() == self.key_seq().len(),
    {
        assert forall|i: int, j: int|
            0 <= i < self.keys@.len() && 0 <= j < self.keys@.len() && i != j implies self.keys@[i]
            != self.keys@[j] by {}
        assert forall|k: u128| #[trigger] self@.contains_key(k) implies exists|i: int|
            0 <= i < self.key_seq().len() && self.key_seq()[i] == k && self.val_seq()[i]
                == self@[k] by {
            let i = index_contents(self.index)[k] as int;
            assert(self.key_seq()[i] == k);
        }
        assert(self@.dom() =~= self.key_seq().to_set()) by {
            assert forall|k: u128| self@.dom().contains(k) <==> self.key_seq().to_set().contains(
                k,
            ) by {
                if self@.contains_key(k) {
                    let i = index_contents(self.index)[k] as int;
                    assert(self.key_seq()[i] == k);
                }
            }
        }
        vstd::seq_lib::seq_to_set_is_finite(self.key_seq());
        self.key_seq().unique_seq_to_set();
    }

    pub fn new() -> (r: Self)
        ensures
            r.wf(),
            r@ == Map::<u128, V>::empty(),
            r.key_seq().len() == 0,
    {
        let r = Table { index: index_new(), keys: Vec::new(), vals: Vec::new() };
        assert(r@ =~= Map::<u128, V>::empty());
        r
    }

    pub fn len(&self) -> (r: usize)
        requires
            self.wf(),
        ensures
            r == self.key_seq().len(),
            r == self@.dom().len(),
            self@.dom().finite(),
    {
        proof {
            self.lemma_positions();
        }
        self.keys.len()
    }

    pub fn contains(&self, key: u128) -> (r: bool)
        requires
            self.wf(),
        ensures
            r == self@.contains_key(key),
    {
        index_get(&self.index, key).is_some()
    }

    pub fn get(&self, key: u128) -> (r: Option<&V>)
        requires
            self.wf(),
        ensures
            match r {
                Some(v) => self@.contains_key(key) && *v == self@[key],
                None => !self@.contains_key(key),
            },
    {
        match index_get(&self.index, key) {
            Some(i) => Some(&self.vals[i]),
            None => None,
        }
    }

    pub fn get_mut(&mut self, key: u128) -> (r: Option<&mut V>)
        requires
            old(self).wf(),
        ensures
            match r {
                Some(v) => {
                    &&& old(self)@.contains_key(key)
                    &&& *v == old(self)@[key]
                    &&& final(self)@ == old(self)@.insert(key, *final(v))
                    &&& final(self).key_seq() == old(self).key_seq()
                    &&& final(self).wf()
                },
                None => !old(self)@.contains_key(key) && *final(self) == *old(self),
            },
    {
        match index_get(&self.index, key) {
            Some(i) => {
                let r = &mut self.vals[i];
                Some(r)
            },
            None => None,
        }
    }

    /// The key at a position.
    pub fn key_at(&self, i: usize) -> (r: u128)
        requires
            self.wf(),
            i < self.key_seq().len(),
        ensures
            r == self.key_seq()[i as int],
    {
        self.keys[i]
    }

    /// The value at a position.
    pub fn val_at(&self, i: usize) -> (r: &V)
        requires
            self.wf(),
            i < self.key_seq().len(),
        ensures
            *r == self.val_seq()[i as int],
            *r == self@[self.key_seq()[i as int]],
    {
        &self.vals[i]
    }

    /// The keys, in the order of their positions.
    pub fn keys(&self) -> (r: Vec<u128>)
        requires
            self.wf(),
        ensures
            r@ == self.key_seq(),
    {
        self.keys.clone()
    }

    /// Removes every given key.
    pub fn remove_all(&mut self, keys: &Vec<u128>)
        requires
            old(self).wf(),
        ensures
            final(self).wf(),
            final(self)@ == old(self)@.remove_keys(keys@.to_set()),
    {
        let mut i: usize = 0;
        proof {
            assert(self@ =~= old(self)@.remove_keys(keys@.take(0).to_set()));
        }
        while i < keys.len()
            invariant
                i <= keys@.len(),
                self.wf(),
                self@ == old(self)@.remove_keys(keys@.take(i as int).to_set()),
            decreases keys@.len() - i,
        {
            self.remove(keys[i]);
            proof {
                let done = keys@.take(i as int);
                let next = keys@.take(i + 1);
                assert(next =~= done.push(keys@[i as int]));
                assert forall|k: u128| next.to_set().contains(k) <==> (done.to_set().contains(k)
                    || k == keys@[i as int]) by {
                    if done.contains(k) {
                        let j = choose|j: int| 0 <= j < done.len() && done[j] == k;
                        assert(next[j] == k);
                    }
                    if k == keys@[i as int] {
                        assert(next[i as int] == k);
                    }
                }
                assert(self@ =~= old(self)@.remove_keys(next.to_set()));
            }
            i = i + 1;
        }
        proof {
            assert(keys@.take(i as int) =~= keys@);
        }
    }

    pub fn insert(&mut self, key: u128, value: V) -> (r: Option<V>)
        requires
            old(self).wf(),
        ensures
            final(self).wf(),
            final(self)@ == old(self)@.insert(key, value),
            match r {
                Some(v) => old(self)@.contains_key(key) && v == old(self)@[key]
                    && final(self).key_seq() == old(self).key_seq(),
                None => !old(self)@.contains_key(key) && final(self).key_seq() == old(
                    self,
                ).key_seq().push(key),
            },
    {
        match index_get(&self.index, key) {
            Some(i) => {
                let mut v = value;
                core::mem::swap(&mut v, &mut self.vals[i]);
                assert(self@ =~= old(self)@.insert(key, value));
                Some(v)
            },
            None => {
                index_insert(&mut self.index, key, self.keys.len());
                self.keys.push(key);
                self.vals.push(value);
                assert(self@ =~= old(self)@.insert(key, value));
                None
            },
        }
    }

    pub fn remove(&mut self, key: u128) -> (r: Option<V>)
        requires
            old(self).wf(),
        ensures
            final(self).wf(),
            final(self)@ == old(self)@.remove(key),
            match r {
                Some(v) => old(self)@.contains_key(key) && v == old(self)@[key],
                None => !old(self)@.contains_key(key) && *final(self) == *old(self),
            },
    {
        match index_get(&self.index, key) {
            Some(i) => {
                let pos: usize = i;
                let last: usize = self.keys.len() - 1;
                let moved: u128 = self.keys[last];
                index_insert(&mut self.index, moved, i);
                index_remove(&mut self.index, key);
                self.keys.swap_remove(pos);
                let v = self.vals.swap_remove(pos);
                assert(self@ =~= old(self)@.remove(key));
                Some(v)
            },
            None => {
                assert(self@ =~= old(self)@.remove(key));
                None
            },
        }
    }
}

impl<V> View for Table<V> {
    type V = Map<u128, V>;

    open spec fn view(&self) -> Map<u128, V> {
        self.map()
    }
}

} // verus!
