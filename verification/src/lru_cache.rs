//! A cache that holds a bounded number of entries and, when it is full,
//! gives up the entry that was used least recently.
//!
//! A cache is read as the `Map` of its entries (`cache@`) together with
//! `cache.recency()`, the keys from the most to the least recently used.
//! A key counts as used when it enters the cache and when `get` finds it.
use crate::hash_keys::{clone_keeps, map_get_mut};
use crate::linked_list::{LinkedList, LinkedListHandle};
use std::collections::HashMap;
use std::hash::Hash;
use vstd::prelude::*;
use vstd::std_specs::hash::obeys_key_model;

verus! {

/// A least-recently-used cache.
pub struct LRUCache<K, V> {
    entries: HashMap<K, V>,
    recent: HashMap<K, LinkedListHandle<K>>,
    list: LinkedList<K>,
    len: usize,
    capacity: usize,
}

impl<K, V> View for LRUCache<K, V> {
    type V = Map<K, V>;

    closed spec fn view(&self) -> Map<K, V> {
        self.entries@
    }
}

impl<K, V> LRUCache<K, V> {
    /// The keys of the cache, from the most to the least recently used.
    pub closed spec fn recency(self) -> Seq<K> {
        self.list@
    }

    /// The number of entries that the cache can hold.
    pub closed spec fn capacity(self) -> nat {
        self.capacity as nat
    }

    /// The invariant of the cache: the list of recency holds each key of the
    /// entries once, the index of handles holds for each key the handle of
    /// its node in that list, and the entries are counted and do not exceed
    /// the capacity.
    pub closed spec fn wf(self) -> bool {
        &&& self.list.wf()
        &&& self.list@.no_duplicates()
        &&& self.list.ids().len() == self.list@.len()
        &&& self.len == self.list@.len()
        &&& self.len <= self.capacity
        &&& forall|k: K| #[trigger] self.entries@.contains_key(k) <==> self.list@.contains(k)
        &&& forall|k: K| self.entries@.contains_key(k) <==> #[trigger] self.recent@.contains_key(k)
        &&& forall|p: int|
            0 <= p < self.list@.len() ==> self.recent@.contains_key(#[trigger] self.list@[p])
                && self.recent@[self.list@[p]].id() == self.list.ids()[p]
    }

    /// What the invariant says of the two readings of a cache: the keys in
    /// `recency` are the keys of the entries, each once, and no more than
    /// the capacity.
    pub proof fn lemma_recency(self)
        requires
            self.wf(),
        ensures
            self.recency().no_duplicates(),
            self.recency().len() <= self.capacity(),
            forall|k: K| #[trigger] self@.contains_key(k) <==> self.recency().contains(k),
    {
    }
}

impl<K, V> LRUCache<K, V> where K: Clone {
    /// An empty cache for up to `capacity` entries.
    pub fn new(capacity: usize) -> (cache: Self)
        ensures
            cache.wf(),
            cache@ == Map::<K, V>::empty(),
            cache.recency() == Seq::<K>::empty(),
            cache.capacity() == capacity,
    {
        let cache = LRUCache {
            entries: HashMap::new(),
            recent: HashMap::new(),
            list: LinkedList::new(),
            len: 0,
            capacity,
        };
        proof {
            cache.list.lemma_ids();
        }
        cache
    }
}

impl<K, V> LRUCache<K, V> where K: Eq + Hash + Clone {
    /// Stores `v` under `k`.  A key that the cache holds gets the new value
    /// and keeps its place in the order of recency.  A new key becomes the
    /// most recently used one; when the cache is full, the entry of the
    /// least recently used key makes room for it.
    pub fn insert(&mut self, k: K, v: V)
        requires
            obeys_key_model::<K>(),
            clone_keeps::<K>(),
            old(self).wf(),
            old(self).capacity() > 0,
        ensures
            final(self).wf(),
            final(self).capacity() == old(self).capacity(),
            old(self)@.contains_key(k) ==> final(self)@ == old(self)@.insert(k, v)
                && final(self).recency() == old(self).recency(),
            !old(self)@.contains_key(k) && old(self).recency().len() < old(self).capacity()
                ==> final(self)@ == old(self)@.insert(k, v) && final(self).recency() == seq![k]
                + old(self).recency(),
            !old(self)@.contains_key(k) && old(self).recency().len() >= old(self).capacity()
                ==> final(self)@ == old(self)@.remove(old(self).recency().last()).insert(k, v)
                && final(self).recency() == seq![k] + old(self).recency().drop_last(),
    {
        broadcast use vstd::std_specs::hash::group_hash_axioms;

        if self.entries.contains_key(&k) {
            self.entries.insert(k, v);
            return ;
        }
        let ghost keys0 = self.list@;
        let ghost ids0 = self.list.ids();
        if self.len < self.capacity {
            self.len += 1;
        } else {
            let removed = self.list.pop_tail();
            match removed {
                Some(victim) => {
                    self.recent.remove(&victim);
                    self.entries.remove(&victim);
                },
                None => {},
            }
        }
        let ghost keys1 = self.list@;
        let ghost ids1 = self.list.ids();
        let ghost recent1 = self.recent@;
        proof {
            assert(keys1.no_duplicates());
            assert forall|j: K| #[trigger] self.entries@.contains_key(j) <==> keys1.contains(
                j,
            ) by {
                if keys1.contains(j) {
                    let p = choose|p: int| 0 <= p < keys1.len() && keys1[p] == j;
                    assert(keys0[p] == j);
                    assert(keys0.contains(j));
                }
                if keys0.contains(j) && keys1.len() < keys0.len() && j != keys0.last() {
                    let p = choose|p: int| 0 <= p < keys0.len() && keys0[p] == j;
                    assert(keys1[p] == j);
                }
            }
            assert forall|p: int| 0 <= p < keys1.len() implies recent1.contains_key(
                #[trigger] keys1[p],
            ) && recent1[keys1[p]].id() == ids1[p] by {
                assert(keys1[p] == keys0[p]);
                assert(ids1[p] == ids0[p]);
            }
            assert(!keys1.contains(k));
        }
        let (listed, indexed) = (k.clone(), k.clone());
        proof {
            assert(cloned::<K>(k, listed) && cloned::<K>(k, indexed));
        }
        let handle = self.list.push_head(listed);
        self.recent.insert(indexed, handle);
        self.entries.insert(k, v);
        proof {
            let keys2 = self.list@;
            let ids2 = self.list.ids();
            assert(keys2 == seq![k] + keys1);
            assert forall|p: int, q: int| 0 <= p < q < keys2.len() implies keys2[p]
                != keys2[q] by {
                assert(keys2[q] == keys1[q - 1]);
                if p > 0 {
                    assert(keys2[p] == keys1[p - 1]);
                } else {
                    assert(keys1.contains(keys1[q - 1]));
                }
            }
            assert forall|j: K| #[trigger] self.entries@.contains_key(j) <==> keys2.contains(
                j,
            ) by {
                if j == k {
                    assert(keys2[0] == k);
                } else {
                    if keys1.contains(j) {
                        let p = choose|p: int| 0 <= p < keys1.len() && keys1[p] == j;
                        assert(keys2[p + 1] == j);
                    }
                    if keys2.contains(j) {
                        let p = choose|p: int| 0 <= p < keys2.len() && keys2[p] == j;
                        assert(keys1[p - 1] == j);
                        assert(keys1.contains(j));
                    }
                }
            }
            assert forall|p: int| 0 <= p < keys2.len() implies self.recent@.contains_key(
                #[trigger] keys2[p],
            ) && self.recent@[keys2[p]].id() == ids2[p] by {
                if p > 0 {
                    assert(keys2[p] == keys1[p - 1]);
                    assert(ids2[p] == ids1[p - 1]);
                    assert(keys1.contains(keys1[p - 1]));
                }
            }
        }
    }

    /// The value under `k`, if the cache holds the key, which then becomes
    /// the most recently used one.
    pub fn get(&mut self, k: &K) -> (found: Option<&V>)
        requires
            obeys_key_model::<K>(),
            clone_keeps::<K>(),
            old(self).wf(),
        ensures
            final(self).wf(),
            final(self).capacity() == old(self).capacity(),
            final(self)@ == old(self)@,
            found == (if old(self)@.contains_key(*k) {
                Some(&old(self)@[*k])
            } else {
                None
            }),
            !old(self)@.contains_key(*k) ==> final(self).recency() == old(self).recency(),
            old(self)@.contains_key(*k) ==> exists|p: int|
                0 <= p < old(self).recency().len() && #[trigger] old(self).recency()[p] == *k
                    && final(self).recency() == seq![*k] + old(self).recency().remove(p),
    {
        broadcast use vstd::std_specs::hash::group_hash_axioms;

        let ghost keys0 = self.list@;
        let ghost ids0 = self.list.ids();
        let handle = self.recent.remove(k);
        if let Some(handle) = handle {
            let ghost at = choose|p: int| 0 <= p < keys0.len() && keys0[p] == *k;
            proof {
                assert(keys0.contains(*k));
                assert(ids0[at] == handle.id());
                self.list.lemma_ids();
            }
            self.list.remove(handle);
            let ghost keys1 = self.list@;
            let ghost ids1 = self.list.ids();
            proof {
                let p = choose|p: int|
                    0 <= p < ids0.len() && #[trigger] ids0[p] == handle.id() && keys1
                        == keys0.remove(p) && ids1 == ids0.remove(p);
                assert(p == at);
            }
            let (listed, indexed) = (k.clone(), k.clone());
            proof {
                assert(cloned::<K>(*k, listed) && cloned::<K>(*k, indexed));
            }
            let new_handle = self.list.push_head(listed);
            self.recent.insert(indexed, new_handle);
            proof {
                let keys2 = self.list@;
                let ids2 = self.list.ids();
                let was = |p: int|
                    if p <= at {
                        p - 1
                    } else {
                        p
                    };
                assert(keys2 == seq![*k] + keys0.remove(at));
                assert forall|p: int| 0 < p < keys2.len() implies #[trigger] keys2[p] == keys0[was(
                    p,
                )] && ids2[p] == ids0[was(p)] && keys2[p] != *k by {
                    assert(keys2[p] == keys1[p - 1]);
                    assert(ids2[p] == ids1[p - 1]);
                }
                assert forall|p: int, q: int| 0 <= p < q < keys2.len() implies keys2[p]
                    != keys2[q] by {
                    assert(keys2[q] == keys0[was(q)]);
                    if p > 0 {
                        assert(keys2[p] == keys0[was(p)]);
                    }
                }
                assert forall|j: K| #[trigger] self.entries@.contains_key(j) <==> keys2.contains(
                    j,
                ) by {
                    if j == *k {
                        assert(keys2[0] == j);
                    } else {
                        if keys0.contains(j) {
                            let p = choose|p: int| 0 <= p < keys0.len() && keys0[p] == j;
                            let q = if p < at {
                                p + 1
                            } else {
                                p
                            };
                            assert(keys2[q] == keys0[was(q)]);
                        }
                        if keys2.contains(j) {
                            let p = choose|p: int| 0 <= p < keys2.len() && keys2[p] == j;
                            assert(keys0[was(p)] == j);
                            assert(keys0.contains(j));
                        }
                    }
                }
                assert forall|p: int| 0 <= p < keys2.len() implies self.recent@.contains_key(
                    #[trigger] keys2[p],
                ) && self.recent@[keys2[p]].id() == ids2[p] by {
                    if p > 0 {
                        assert(keys2[p] == keys0[was(p)]);
                        assert(keys0.contains(keys0[was(p)]));
                    }
                }
                assert(0 <= at < old(self).recency().len() && old(self).recency()[at] == *k
                    && self.recency() == seq![*k] + old(self).recency().remove(at));
            }
        }
        self.entries.get(k)
    }

    /// A mutable reference to the value under `k`, if the cache holds the
    /// key.  The order of recency stays as it is.
    pub fn get_mut(&mut self, k: &K) -> (slot: Option<&mut V>)
        requires
            obeys_key_model::<K>(),
            old(self).wf(),
        ensures
            final(self).wf(),
            final(self).capacity() == old(self).capacity(),
            final(self).recency() == old(self).recency(),
            match slot {
                Some(v) => old(self)@.contains_key(*k) && *v == old(self)@[*k] && final(self)@
                    == old(self)@.insert(*k, *final(v)),
                None => !old(self)@.contains_key(*k) && final(self)@ == old(self)@,
            },
    {
        map_get_mut(&mut self.entries, k)
    }
}

} // verus!
