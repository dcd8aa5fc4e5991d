//! A trie: a map whose keys are sequences, with one node for each prefix of
//! a key and, in every node, a hash index from the next element of the key
//! to the node below.
//!
//! A trie is read through `lookup`, the value that it holds under a
//! sequence, and as the `Map` of those values (`trie@`).
use crate::hash_keys::{clone_keeps, map_get_mut};
use std::collections::HashMap;
use std::hash::Hash;
use vstd::prelude::*;
use vstd::slice::slice_subrange;
use vstd::std_specs::hash::{obeys_key_model, spec_hash_map_iter};
use vstd::std_specs::iter::IteratorSpec;

verus! {

/// A trie that indexes keys by the hash of its constituent elements.
#[derive(Debug)]
pub struct HashTrie<K, V> {
    key: Vec<K>,
    value: Option<V>,
    children: HashMap<K, HashTrie<K, V>>,
}

impl<K, V> HashTrie<K, V> {
    /// The sequence that leads from the root of the whole trie to this
    /// node: the key of the value that the node holds.
    pub closed spec fn prefix(self) -> Seq<K> {
        self.key@
    }

    /// The value that this node holds.
    pub closed spec fn here(self) -> Option<V> {
        self.value
    }

    /// The node below this one under `k`.
    pub closed spec fn child(self, k: K) -> Option<HashTrie<K, V>> {
        if self.children@.contains_key(k) {
            Some(self.children@[k])
        } else {
            None
        }
    }

    /// The value that the trie holds under `key`, counted from this node.
    pub open spec fn lookup(self, key: Seq<K>) -> Option<V>
        decreases key.len(),
    {
        if key.len() == 0 {
            self.here()
        } else {
            match self.child(key[0]) {
                Some(below) => below.lookup(key.drop_first()),
                None => None,
            }
        }
    }

    /// The value that the trie holds under `rest`, counted from the node
    /// below this one under `k`.
    pub open spec fn lookup_below(self, k: K, rest: Seq<K>) -> Option<V> {
        match self.child(k) {
            Some(below) => below.lookup(rest),
            None => None,
        }
    }

    /// The values of the trie by their keys, counted from this node.
    pub open spec fn as_map(self) -> Map<Seq<K>, V> {
        Map::new(|key: Seq<K>| self.lookup(key) is Some, |key: Seq<K>| self.lookup(key).unwrap())
    }

    /// The node holds no value and has no node below it.
    pub closed spec fn bare(self) -> bool {
        self.value is None && self.children@.dom() =~= Set::<K>::empty()
    }

    /// The invariant of the trie: every node below this one is reached by
    /// the sequence that it names as its own.
    pub closed spec fn wf(self) -> bool
        decreases self,
    {
        forall|k: K| #[trigger]
            self.children@.contains_key(k) ==> self.children@[k].key@ == self.key@.push(k)
                && self.children@[k].wf()
    }

    /// The empty trie.
    pub fn new() -> (trie: Self)
        ensures
            trie.wf(),
            trie.bare(),
            trie.prefix() == Seq::<K>::empty(),
            trie@ == Map::<Seq<K>, V>::empty(),
            forall|key: Seq<K>| #[trigger] trie.lookup(key) is None,
    {
        let trie = HashTrie { key: Vec::new(), value: None, children: HashMap::new() };
        proof {
            assert forall|key: Seq<K>| trie.lookup(key) is None by {}
            assert(trie.as_map() =~= Map::<Seq<K>, V>::empty());
        }
        trie
    }

    /// A node that is bare holds nothing under any key.
    pub proof fn lemma_bare(self, key: Seq<K>)
        requires
            self.bare(),
        ensures
            self.lookup(key) is None,
    {
    }

    /// A change below one node: where two nodes hold the same value and
    /// differ only in what lies under `key` without its first element in
    /// the node below under that element, the one is the other with `now`
    /// under `key`.
    pub proof fn lemma_change_below(self, after: Self, key: Seq<K>, now: Option<V>)
        requires
            key.len() > 0,
            after.here() == self.here(),
            forall|k: K| k != key[0] ==> #[trigger] after.child(k) == self.child(k),
            forall|rest: Seq<K>| #[trigger]
                after.lookup_below(key[0], rest) == (if rest == key.drop_first() {
                    now
                } else {
                    self.lookup_below(key[0], rest)
                }),
        ensures
            forall|other: Seq<K>| #[trigger]
                after.lookup(other) == (if other == key {
                    now
                } else {
                    self.lookup(other)
                }),
    {
        assert forall|other: Seq<K>| #[trigger]
            after.lookup(other) == (if other == key {
                now
            } else {
                self.lookup(other)
            }) by {
            if other.len() > 0 {
                if other[0] == key[0] {
                    assert(after.lookup(other) == after.lookup_below(key[0], other.drop_first()));
                    assert(self.lookup(other) == self.lookup_below(key[0], other.drop_first()));
                    if other.drop_first() == key.drop_first() {
                        assert(other =~= seq![other[0]] + other.drop_first());
                        assert(key =~= seq![key[0]] + key.drop_first());
                    }
                } else {
                    assert(after.child(other[0]) == self.child(other[0]));
                }
            }
        }
    }

    /// A change of the value that a node holds: where two nodes have the
    /// same nodes below them, the one is the other with `now` under the
    /// empty key.
    pub proof fn lemma_change_here(self, after: Self, now: Option<V>)
        requires
            after.here() == now,
            forall|k: K| #[trigger] after.child(k) == self.child(k),
        ensures
            forall|other: Seq<K>| #[trigger]
                after.lookup(other) == (if other == Seq::<K>::empty() {
                    now
                } else {
                    self.lookup(other)
                }),
    {
        assert forall|other: Seq<K>| #[trigger]
            after.lookup(other) == (if other == Seq::<K>::empty() {
                now
            } else {
                self.lookup(other)
            }) by {
            if other.len() > 0 {
                assert(after.child(other[0]) == self.child(other[0]));
            } else {
                assert(other =~= Seq::<K>::empty());
            }
        }
    }
}

impl<K, V> View for HashTrie<K, V> {
    type V = Map<Seq<K>, V>;

    open spec fn view(&self) -> Map<Seq<K>, V> {
        self.as_map()
    }
}

impl<K, V> HashTrie<K, V> where K: Eq + Hash + Clone {
    /// Stores `value` under `key`, and returns the value that the key had
    /// before, if it had one.
    pub fn insert(&mut self, key: &[K], value: V) -> (previous: Option<V>)
        requires
            obeys_key_model::<K>(),
            clone_keeps::<K>(),
            old(self).wf(),
        ensures
            final(self).wf(),
            final(self).prefix() == old(self).prefix(),
            previous == old(self).lookup(key@),
            forall|other: Seq<K>| #[trigger]
                final(self).lookup(other) == (if other == key@ {
                    Some(value)
                } else {
                    old(self).lookup(other)
                }),
            final(self)@ == old(self)@.insert(key@, value),
        decreases key@.len(),
    {
        broadcast use vstd::std_specs::hash::group_hash_axioms;

        let ghost before = *self;
        if key.len() == 0 {
            let mut held = Some(value);
            core::mem::swap(&mut self.value, &mut held);
            proof {
                assert(key@ =~= Seq::<K>::empty());
                before.lemma_change_here(*self, Some(value));
                assert(self.as_map() =~= before.as_map().insert(key@, value));
            }
            return held;
        }
        let first = &key[0];
        let rest = slice_subrange(key, 1, key.len());
        proof {
            assert(rest@ =~= key@.drop_first());
        }
        let previous = match map_get_mut(&mut self.children, first) {
            Some(below) => below.insert(rest, value),
            None => {
                let mut below = HashTrie::<K, V>::new();
                let mut below_key = self.key.clone();
                let step = first.clone();
                proof {
                    assert(cloned::<K>(*first, step));
                    assert forall|i: int| 0 <= i < self.key@.len() implies below_key@[i]
                        == self.key@[i] by {
                        assert(cloned::<K>(self.key@[i], below_key@[i]));
                    }
                    assert(below_key@ =~= self.key@);
                }
                below_key.push(step);
                below.key = below_key;
                let previous = below.insert(rest, value);
                let index = first.clone();
                proof {
                    assert(cloned::<K>(*first, index));
                }
                self.children.insert(index, below);
                previous
            },
        };
        proof {
            assert forall|tail: Seq<K>| #[trigger]
                self.lookup_below(key@[0], tail) == (if tail == key@.drop_first() {
                    Some(value)
                } else {
                    before.lookup_below(key@[0], tail)
                }) by {
                if before.child(key@[0]) is None {
                    HashTrie::<K, V>::lemma_fresh(tail);
                }
            }
            before.lemma_change_below(*self, key@, Some(value));
            assert(self.as_map() =~= before.as_map().insert(key@, value));
        }
        previous
    }

    /// The value under `key`, if the trie holds one.
    pub fn get(&self, key: &[K]) -> (found: Option<&V>)
        requires
            obeys_key_model::<K>(),
        ensures
            found is Some <==> self.lookup(key@) is Some,
            found is Some ==> *found.unwrap() == self.lookup(key@).unwrap(),
        decreases key@.len(),
    {
        broadcast use vstd::std_specs::hash::group_hash_axioms;

        if key.len() == 0 {
            self.value.as_ref()
        } else {
            let first = &key[0];
            let rest = slice_subrange(key, 1, key.len());
            proof {
                assert(rest@ =~= key@.drop_first());
            }
            match self.children.get(first) {
                Some(below) => below.get(rest),
                None => None,
            }
        }
    }

    /// Takes the value under `key` out of the trie: `None` when the trie
    /// holds none.  The nodes that are left without a value and without a
    /// node below them are taken out with it.
    pub fn remove(&mut self, key: &[K]) -> (removed: Option<V>)
        requires
            obeys_key_model::<K>(),
            old(self).wf(),
        ensures
            final(self).wf(),
            final(self).prefix() == old(self).prefix(),
            removed == old(self).lookup(key@),
            forall|other: Seq<K>| #[trigger]
                final(self).lookup(other) == (if other == key@ {
                    None
                } else {
                    old(self).lookup(other)
                }),
            final(self)@ == old(self)@.remove(key@),
    {
        let ghost before = *self;
        let removed = self.remove_internal(key).0;
        proof {
            assert(self.as_map() =~= before.as_map().remove(key@));
        }
        removed
    }

    /// `remove`, with a second result: whether the node has become bare, so
    /// that the node above may take it out.  It is `false` where nothing
    /// below this node lies on the way of `key`.
    fn remove_internal(&mut self, key: &[K]) -> (out: (Option<V>, bool))
        requires
            obeys_key_model::<K>(),
            old(self).wf(),
        ensures
            final(self).wf(),
            final(self).prefix() == old(self).prefix(),
            out.0 == old(self).lookup(key@),
            forall|other: Seq<K>| #[trigger]
                final(self).lookup(other) == (if other == key@ {
                    None
                } else {
                    old(self).lookup(other)
                }),
            out.1 ==> final(self).bare(),
        decreases key@.len(),
    {
        broadcast use vstd::std_specs::hash::group_hash_axioms;

        let ghost before = *self;
        if key.len() == 0 {
            let taken = self.value.take();
            proof {
                assert(key@ =~= Seq::<K>::empty());
                before.lemma_change_here(*self, None);
            }
            return (taken, self.children.is_empty());
        }
        let first = &key[0];
        let rest = slice_subrange(key, 1, key.len());
        proof {
            assert(rest@ =~= key@.drop_first());
        }
        let out = match map_get_mut(&mut self.children, first) {
            Some(below) => {
                let (removed, empty) = below.remove_internal(rest);
                let ghost left = *below;
                if empty {
                    self.children.remove(first);
                }
                proof {
                    assert forall|tail: Seq<K>| #[trigger]
                        self.lookup_below(key@[0], tail) == (if tail == key@.drop_first() {
                            None
                        } else {
                            before.lookup_below(key@[0], tail)
                        }) by {
                        if empty {
                            left.lemma_bare(tail);
                        }
                        assert(left.lookup(tail) == (if tail == rest@ {
                            None
                        } else {
                            before.lookup_below(key@[0], tail)
                        }));
                    }
                }
                (removed, self.children.is_empty() && self.value.is_none())
            },
            None => (None, false),
        };
        proof {
            before.lemma_change_below(*self, key@, None);
        }
        out
    }
}

impl<K, V> HashTrie<K, V> where K: Eq + Hash + Clone {
    /// A copy of the sequence that leads to this node.
    fn clone_key(&self) -> (key: Vec<K>)
        requires
            clone_keeps::<K>(),
        ensures
            key@ == self.prefix(),
    {
        let key = self.key.clone();
        proof {
            assert forall|i: int| 0 <= i < self.key@.len() implies key@[i] == self.key@[i] by {
                assert(cloned::<K>(self.key@[i], key@[i]));
            }
            assert(key@ =~= self.key@);
        }
        key
    }

    /// Adds to `acc` what `entries_with_prefix` returns: the entries that
    /// `finds` describes, each once, and none before an entry whose key it
    /// extends or equals.
    fn entries_with_prefix_internal<'a>(&'a self, key: &[K], acc: &mut Vec<(Vec<K>, &'a V)>)
        requires
            obeys_key_model::<K>(),
            clone_keeps::<K>(),
            self.wf(),
        ensures
            extends(old(acc)@, final(acc)@),
            forall|i: int|
                old(acc)@.len() <= i < final(acc)@.len() ==> self.finds(
                    key@,
                    #[trigger] listed(final(acc)@)[i],
                ),
            forall|e: (Seq<K>, V)| #[trigger]
                self.finds(key@, e) ==> listed_from(listed(final(acc)@), old(acc)@.len() as int, e),
            forall|i: int, j: int|
                old(acc)@.len() <= i < j < final(acc)@.len() ==> !(#[trigger] listed(
                    final(acc)@,
                )[j]).0.is_prefix_of((#[trigger] listed(final(acc)@)[i]).0),
        decreases self,
    {
        broadcast use vstd::std_specs::hash::group_hash_axioms;

        let ghost n0 = acc@.len() as int;
        let ghost depth = self.key@.len() as int;
        if key.len() == 0 {
            match &self.value {
                Some(value) => {
                    let own = self.clone_key();
                    acc.push((own, value));
                },
                None => {},
            }
            let ghost acc1 = acc@;
            let ghost n1 = acc@.len() as int;
            let ghost v = spec_hash_map_iter(&self.children).remaining();
            let ghost mut done = 0int;
            for pair in it: self.children.iter()
                invariant
                    obeys_key_model::<K>(),
                    clone_keeps::<K>(),
                    self.wf(),
                    depth == self.key@.len(),
                    key@.len() == 0,
                    n1 == acc1.len(),
                    v.no_duplicates(),
                    it.seq() == v,
                    it.index() == done,
                    extends(acc1, acc@),
                    forall|i: int|
                        n1 <= i < acc@.len() ==> from_below(v, done, #[trigger] listed(acc@)[i]),
                    forall|j: int, e: (Seq<K>, V)|
                        0 <= j < done && #[trigger] (*v[j].1).holds_entry(e) ==> listed_from(
                            listed(acc@),
                            n1,
                            e,
                        ),
                    forall|i: int, j: int|
                        n1 <= i < j < acc@.len() ==> !(#[trigger] listed(acc@)[j]).0.is_prefix_of(
                            (#[trigger] listed(acc@)[i]).0,
                        ),
            {
                let (_, below) = pair;
                let ghost acc2 = acc@;
                let ghost n2 = acc@.len() as int;
                let ghost at = done;
                proof {
                    assert(pair == v[at]);
                    assert(self.children@.contains_key(*pair.0));
                    assert(self.children@[*pair.0] == *pair.1);
                }
                below.entries_with_prefix_internal(key, acc);
                proof {
                    let l = listed(acc@);
                    assert forall|i: int| n1 <= i < acc@.len() implies from_below(
                        v,
                        at + 1,
                        #[trigger] l[i],
                    ) by {
                        if i < n2 {
                            assert(acc@[i] == acc2[i]);
                            assert(l[i] == listed(acc2)[i]);
                            let j = choose|j: int|
                                0 <= j < at && (*(#[trigger] v[j]).1).holds_entry(listed(acc2)[i]);
                            assert((*v[j].1).holds_entry(l[i]));
                        } else {
                            assert(below.finds(key@, l[i]));
                            assert((*v[at].1).holds_entry(l[i]));
                        }
                    }
                    assert forall|j: int, e: (Seq<K>, V)|
                        0 <= j < at + 1 && #[trigger] (*v[j].1).holds_entry(e) implies listed_from(
                        l,
                        n1,
                        e,
                    ) by {
                        if j < at {
                            assert(listed_from(listed(acc2), n1, e));
                            let i = choose|i: int|
                                n1 <= i < listed(acc2).len() && #[trigger] listed(acc2)[i] == e;
                            assert(acc@[i] == acc2[i]);
                            assert(l[i] == e);
                        } else {
                            assert(below.finds(key@, e));
                            let i = choose|i: int| n2 <= i < l.len() && #[trigger] l[i] == e;
                            assert(l[i] == e);
                        }
                    }
                    assert forall|i: int, j: int| n1 <= i < j < acc@.len() implies !(
                    #[trigger] l[j]).0.is_prefix_of((#[trigger] l[i]).0) by {
                        if j < n2 {
                            assert(acc@[i] == acc2[i] && acc@[j] == acc2[j]);
                            assert(l[i] == listed(acc2)[i] && l[j] == listed(acc2)[j]);
                        } else if i < n2 {
                            assert(acc@[i] == acc2[i]);
                            assert(l[i] == listed(acc2)[i]);
                            let w = choose|w: int|
                                0 <= w < at && (*(#[trigger] v[w]).1).holds_entry(listed(acc2)[i]);
                            assert(below.finds(key@, l[j]));
                            assert(self.children@.contains_key(*v[w].0));
                            assert(self.children@[*v[w].0] == *v[w].1);
                            (*v[w].1).lemma_entry_shape(l[i]);
                            below.lemma_entry_shape(l[j]);
                            if l[j].0.is_prefix_of(l[i].0) {
                                let (above, under) = ((*v[w].1).prefix(), below.prefix());
                                assert(above == self.key@.push(*v[w].0));
                                assert(under == self.key@.push(*v[at].0));
                                assert(above[depth] == l[i].0.subrange(0, depth + 1)[depth]);
                                assert(under[depth] == l[j].0.subrange(0, depth + 1)[depth]);
                                assert(l[j].0[depth] == l[i].0.subrange(0, l[j].0.len() as int)[depth]);
                                assert(*v[w].0 == *v[at].0);
                                assert(v[w] == v[at]);
                            }
                        }
                    }
                    done = done + 1;
                }
            }
            proof {
                let l = listed(acc@);
                assert(done == v.len());
                assert forall|i: int| n0 <= i < acc@.len() implies self.finds(
                    key@,
                    #[trigger] l[i],
                ) by {
                    if i < n1 {
                        assert(acc@[i] == acc1[i]);
                        assert(self.lookup(Seq::<K>::empty()) == Some(l[i].1));
                        assert(l[i].0 =~= self.prefix() + Seq::<K>::empty());
                    } else {
                        let j = choose|j: int|
                            0 <= j < v.len() && (*(#[trigger] v[j]).1).holds_entry(l[i]);
                        assert(self.children@.contains_key(*v[j].0));
                        assert(self.children@[*v[j].0] == *v[j].1);
                        self.lemma_entry_up(*v[j].0, l[i]);
                    }
                }
                assert forall|e: (Seq<K>, V)| #[trigger] self.finds(key@, e) implies listed_from(
                    l,
                    n0,
                    e,
                ) by {
                    let rest = choose|rest: Seq<K>| #[trigger]
                        self.lookup(rest) == Some(e.1) && e.0 == self.prefix() + rest;
                    if rest.len() == 0 {
                        assert(e.0 =~= self.prefix());
                        assert(acc@[n0] == acc1[n0]);
                        assert(l[n0] == e);
                    } else {
                        let k = rest[0];
                        self.lemma_entry_down(rest, e);
                        let below = self.children@[k];
                        assert(v.contains((&k, &below)));
                        let j = choose|j: int| 0 <= j < v.len() && v[j] == (&k, &below);
                        assert((*v[j].1).holds_entry(e));
                    }
                }
                assert forall|i: int, j: int| n0 <= i < j < acc@.len() implies !(#[trigger] l[j]).0.is_prefix_of(
                    (#[trigger] l[i]).0,
                ) by {
                    if i < n1 {
                        assert(acc@[i] == acc1[i]);
                        let w = choose|w: int|
                            0 <= w < v.len() && (*(#[trigger] v[w]).1).holds_entry(l[j]);
                        assert(self.children@.contains_key(*v[w].0));
                        assert(self.children@[*v[w].0] == *v[w].1);
                        (*v[w].1).lemma_entry_shape(l[j]);
                    }
                }
            }
        } else {
            let first = &key[0];
            let rest = slice_subrange(key, 1, key.len());
            proof {
                assert(rest@ =~= key@.drop_first());
            }
            match self.children.get(first) {
                Some(below) => {
                    match &self.value {
                        Some(value) => {
                            let own = self.clone_key();
                            acc.push((own, value));
                        },
                        None => {},
                    }
                    let ghost acc1 = acc@;
                    let ghost n1 = acc@.len() as int;
                    below.entries_with_prefix_internal(rest, acc);
                    proof {
                        let l = listed(acc@);
                        assert forall|i: int| n0 <= i < acc@.len() implies self.finds(
                            key@,
                            #[trigger] l[i],
                        ) by {
                            if i < n1 {
                                assert(acc@[i] == acc1[i]);
                            } else {
                                assert(below.finds(rest@, l[i]));
                            }
                        }
                        assert forall|e: (Seq<K>, V)| #[trigger]
                            self.finds(key@, e) implies listed_from(l, n0, e) by {
                            if below.finds(rest@, e) {
                                let i = choose|i: int| n1 <= i < l.len() && #[trigger] l[i] == e;
                                assert(l[i] == e);
                            } else {
                                assert(acc@[n0] == acc1[n0]);
                                assert(l[n0] == e);
                            }
                        }
                        assert forall|i: int, j: int| n0 <= i < j < acc@.len() implies !(
                        #[trigger] l[j]).0.is_prefix_of((#[trigger] l[i]).0) by {
                            if i < n1 {
                                assert(acc@[i] == acc1[i]);
                                assert(below.finds(rest@, l[j]));
                                below.lemma_finds_shape(rest@, l[j]);
                            }
                        }
                    }
                },
                None => {},
            }
        }
    }
}

/// `later` begins with `earlier`.
pub open spec fn extends<T>(earlier: Seq<T>, later: Seq<T>) -> bool {
    earlier.len() <= later.len() && later.subrange(0, earlier.len() as int) =~= earlier
}

/// What a list of entries says: key by key the sequence, with its value.
pub open spec fn listed<K, V>(entries: Seq<(Vec<K>, &V)>) -> Seq<(Seq<K>, V)> {
    Seq::new(entries.len(), |i: int| (entries[i].0@, *entries[i].1))
}

/// `e` stands in `list` at `from` or after it.
pub open spec fn listed_from<E>(list: Seq<E>, from: int, e: E) -> bool {
    exists|i: int| from <= i < list.len() && #[trigger] list[i] == e
}

/// One of the first `upto` nodes of `below` holds the entry `e`.
pub open spec fn from_below<K, V>(
    below: Seq<(&K, &HashTrie<K, V>)>,
    upto: int,
    e: (Seq<K>, V),
) -> bool {
    exists|j: int| 0 <= j < upto && (*(#[trigger] below[j]).1).holds_entry(e)
}

impl<K, V> HashTrie<K, V> {
    /// The trie holds the value `e.1` under the key `e.0`, counted from the
    /// root of the whole trie: `e.0` is the sequence that leads to this node,
    /// followed by a key under which `lookup` gives the value.
    pub open spec fn holds_entry(self, e: (Seq<K>, V)) -> bool {
        exists|rest: Seq<K>| #[trigger] self.lookup(rest) == Some(e.1) && e.0 == self.prefix() + rest
    }

    /// The entry `e` is one of those that a search for the prefix `key`
    /// gives: an entry of the node that `key` leads to or of a node below it,
    /// or the entry of a node on the way there from which the way goes on.
    pub open spec fn finds(self, key: Seq<K>, e: (Seq<K>, V)) -> bool
        decreases key.len(),
    {
        if key.len() == 0 {
            self.holds_entry(e)
        } else {
            match self.child(key[0]) {
                Some(below) => (self.here() == Some(e.1) && e.0 == self.prefix())
                    || below.finds(key.drop_first(), e),
                None => false,
            }
        }
    }

    /// The key of an entry of a node begins with the sequence that leads to
    /// the node.
    pub proof fn lemma_entry_shape(self, e: (Seq<K>, V))
        requires
            self.holds_entry(e),
        ensures
            self.prefix().is_prefix_of(e.0),
    {
        let rest = choose|rest: Seq<K>| #[trigger]
            self.lookup(rest) == Some(e.1) && e.0 == self.prefix() + rest;
        assert(e.0.subrange(0, self.prefix().len() as int) =~= self.prefix());
    }

    /// An entry of the node below this one under `k` is an entry of this
    /// node.
    pub proof fn lemma_entry_up(self, k: K, e: (Seq<K>, V))
        requires
            self.wf(),
            self.child(k) is Some,
            self.child(k).unwrap().holds_entry(e),
        ensures
            self.holds_entry(e),
    {
        let below = self.child(k).unwrap();
        let rest = choose|rest: Seq<K>| #[trigger]
            below.lookup(rest) == Some(e.1) && e.0 == below.prefix() + rest;
        let longer = seq![k] + rest;
        assert(longer.drop_first() =~= rest);
        assert(self.lookup(longer) == Some(e.1));
        assert(e.0 =~= self.prefix() + longer);
    }

    /// An entry of this node under a key that is not empty is an entry of
    /// the node below under the first element of that key.
    pub proof fn lemma_entry_down(self, rest: Seq<K>, e: (Seq<K>, V))
        requires
            self.wf(),
            rest.len() > 0,
            self.lookup(rest) == Some(e.1),
            e.0 == self.prefix() + rest,
        ensures
            self.child(rest[0]) is Some,
            self.child(rest[0]).unwrap().holds_entry(e),
    {
        let below = self.child(rest[0]).unwrap();
        assert(below.lookup(rest.drop_first()) == Some(e.1));
        assert(e.0 =~= below.prefix() + rest.drop_first());
    }

    /// The key of an entry that a search from a node gives begins with the
    /// sequence that leads to the node.
    pub proof fn lemma_finds_shape(self, key: Seq<K>, e: (Seq<K>, V))
        requires
            self.wf(),
            self.finds(key, e),
        ensures
            self.prefix().is_prefix_of(e.0),
        decreases key.len(),
    {
        if key.len() == 0 {
            self.lemma_entry_shape(e);
        } else {
            let below = self.child(key[0]).unwrap();
            if self.here() == Some(e.1) && e.0 == self.prefix() {
                assert(e.0.subrange(0, self.prefix().len() as int) =~= self.prefix());
            } else {
                below.lemma_finds_shape(key.drop_first(), e);
                assert(e.0.subrange(0, self.prefix().len() as int) =~= self.prefix()) by {
                    assert(e.0.subrange(0, below.prefix().len() as int) =~= below.prefix());
                    assert forall|i: int| 0 <= i < self.prefix().len() implies e.0[i]
                        == self.prefix()[i] by {
                        assert(e.0[i] == e.0.subrange(0, below.prefix().len() as int)[i]);
                    }
                }
            }
        }
    }
}

impl<K, V> HashTrie<K, V> {
    /// `list` holds the entries that a search for the prefix `key` gives:
    /// each of them once, and none before an entry whose key it extends.
    /// Which of two entries comes first where neither key extends the other
    /// is left open: it goes by the hash index.
    pub open spec fn lists(self, key: Seq<K>, list: Seq<(Seq<K>, V)>) -> bool {
        &&& forall|i: int| 0 <= i < list.len() ==> self.finds(key, #[trigger] list[i])
        &&& forall|e: (Seq<K>, V)| #[trigger] self.finds(key, e) ==> listed_from(list, 0, e)
        &&& forall|i: int, j: int|
            0 <= i < j < list.len() ==> !(#[trigger] list[j]).0.is_prefix_of((#[trigger] list[i]).0)
    }
}

impl<K, V> HashTrie<K, V> where K: Eq + Hash + Clone {
    /// The entries that a search for the prefix `key` gives, with their keys
    /// counted from the root of the whole trie: the entries of the node that
    /// `key` leads to and of every node below it, and before them the
    /// entries of the nodes on the way there.  Where the way breaks off,
    /// only of those nodes from which it went on.
    pub fn entries_with_prefix(&self, key: &[K]) -> (entries: Vec<(Vec<K>, &V)>)
        requires
            obeys_key_model::<K>(),
            clone_keeps::<K>(),
            self.wf(),
        ensures
            self.lists(key@, listed(entries@)),
    {
        let mut entries = Vec::new();
        self.entries_with_prefix_internal(key, &mut entries);
        entries
    }

    /// The keys of `entries_with_prefix`, in the same order.
    pub fn keys_with_prefix(&self, key: &[K]) -> (keys: Vec<Vec<K>>)
        requires
            obeys_key_model::<K>(),
            clone_keeps::<K>(),
            self.wf(),
        ensures
            exists|list: Seq<(Seq<K>, V)>|
                #![trigger self.lists(key@, list)]
                self.lists(key@, list) && keys@.len() == list.len() && forall|i: int|
                    0 <= i < list.len() ==> (#[trigger] keys@[i])@ == list[i].0,
    {
        let entries = self.entries_with_prefix(key);
        let ghost list = listed(entries@);
        let mut keys: Vec<Vec<K>> = Vec::new();
        for entry in it: entries
            invariant
                it.seq().len() == list.len(),
                forall|i: int| 0 <= i < list.len() ==> (#[trigger] it.seq()[i]).0@ == list[i].0,
                keys@.len() == it.index(),
                forall|i: int| 0 <= i < keys@.len() ==> (#[trigger] keys@[i])@ == list[i].0,
        {
            keys.push(entry.0);
        }
        keys
    }

    /// The values of `entries_with_prefix`, in the same order.
    pub fn values_with_prefix(&self, key: &[K]) -> (values: Vec<&V>)
        requires
            obeys_key_model::<K>(),
            clone_keeps::<K>(),
            self.wf(),
        ensures
            exists|list: Seq<(Seq<K>, V)>|
                #![trigger self.lists(key@, list)]
                self.lists(key@, list) && values@.len() == list.len() && forall|i: int|
                    0 <= i < list.len() ==> *(#[trigger] values@[i]) == list[i].1,
    {
        let entries = self.entries_with_prefix(key);
        let ghost list = listed(entries@);
        let mut values: Vec<&V> = Vec::new();
        for entry in it: entries
            invariant
                it.seq().len() == list.len(),
                forall|i: int| 0 <= i < list.len() ==> *(#[trigger] it.seq()[i]).1 == list[i].1,
                values@.len() == it.index(),
                forall|i: int| 0 <= i < values@.len() ==> *(#[trigger] values@[i]) == list[i].1,
        {
            values.push(entry.1);
        }
        values
    }

    /// A traversal of all entries: those of `entries_with_prefix` for the
    /// empty prefix, in the same order.
    pub fn iter<'a>(&'a self) -> (iter: Iter<'a, K, V>)
        requires
            obeys_key_model::<K>(),
            clone_keeps::<K>(),
            self.wf(),
        ensures
            self.lists(Seq::<K>::empty(), iter.remaining()),
    {
        let root: Vec<K> = Vec::new();
        let entries = self.entries_with_prefix(root.as_slice());
        proof {
            assert(root@ =~= Seq::<K>::empty());
            assert(listed(entries@).skip(0) =~= listed(entries@));
        }
        Iter { entries, at: 0 }
    }

    /// A traversal of the keys of all entries, in the order of `iter`.
    pub fn keys<'a>(&'a self) -> (keys: Keys<'a, K, V>)
        requires
            obeys_key_model::<K>(),
            clone_keeps::<K>(),
            self.wf(),
        ensures
            self.lists(Seq::<K>::empty(), keys.remaining()),
    {
        Keys { iter: self.iter() }
    }

    /// A traversal of the values of all entries, in the order of `iter`.
    pub fn values<'a>(&'a self) -> (values: Values<'a, K, V>)
        requires
            obeys_key_model::<K>(),
            clone_keeps::<K>(),
            self.wf(),
        ensures
            self.lists(Seq::<K>::empty(), values.remaining()),
    {
        Values { iter: self.iter() }
    }
}

/// A traversal of the entries of a trie.
pub struct Iter<'a, K, V> {
    entries: Vec<(Vec<K>, &'a V)>,
    at: usize,
}

impl<'a, K, V> Iter<'a, K, V> {
    /// The entries that the traversal has yet to give, in the order in which
    /// `next` gives them.
    pub closed spec fn remaining(self) -> Seq<(Seq<K>, V)> {
        listed(self.entries@).skip(self.at as int)
    }

    /// The next entry, or `None` when every entry has been given.
    pub fn next(&mut self) -> (item: Option<(&Vec<K>, &'a V)>)
        ensures
            old(self).remaining().len() == 0 ==> item is None && final(self).remaining() == old(
                self,
            ).remaining(),
            old(self).remaining().len() > 0 ==> item is Some && (
                item.unwrap().0@,
                *item.unwrap().1,
            ) == old(self).remaining()[0] && final(self).remaining() == old(
                self,
            ).remaining().drop_first(),
    {
        proof {
            use_type_invariant(&*self);
        }
        if self.at < self.entries.len() {
            let i = self.at;
            self.at = self.at + 1;
            proof {
                assert(old(self).remaining()[0] == listed(self.entries@)[i as int]);
                assert(self.remaining() =~= old(self).remaining().drop_first());
            }
            let entry = &self.entries[i];
            Some((&entry.0, entry.1))
        } else {
            None
        }
    }

    /// The traversal has not gone past its last entry.
    #[verifier::type_invariant]
    spec fn within(self) -> bool {
        self.at <= self.entries@.len()
    }
}

/// A traversal of the keys of a trie.
pub struct Keys<'a, K, V> {
    iter: Iter<'a, K, V>,
}

impl<'a, K, V> Keys<'a, K, V> {
    /// The entries whose keys the traversal has yet to give.
    pub closed spec fn remaining(self) -> Seq<(Seq<K>, V)> {
        self.iter.remaining()
    }

    /// The next key, or `None` when every key has been given.
    pub fn next(&mut self) -> (key: Option<&Vec<K>>)
        ensures
            old(self).remaining().len() == 0 ==> key is None && final(self).remaining() == old(
                self,
            ).remaining(),
            old(self).remaining().len() > 0 ==> key is Some && key.unwrap()@ == old(
                self,
            ).remaining()[0].0 && final(self).remaining() == old(self).remaining().drop_first(),
    {
        match self.iter.next() {
            Some(entry) => Some(entry.0),
            None => None,
        }
    }
}

/// A traversal of the values of a trie.
pub struct Values<'a, K, V> {
    iter: Iter<'a, K, V>,
}

impl<'a, K, V> Values<'a, K, V> {
    /// The entries whose values the traversal has yet to give.
    pub closed spec fn remaining(self) -> Seq<(Seq<K>, V)> {
        self.iter.remaining()
    }

    /// The next value, or `None` when every value has been given.
    pub fn next(&mut self) -> (value: Option<&'a V>)
        ensures
            old(self).remaining().len() == 0 ==> value is None && final(self).remaining() == old(
                self,
            ).remaining(),
            old(self).remaining().len() > 0 ==> value is Some && *value.unwrap() == old(
                self,
            ).remaining()[0].1 && final(self).remaining() == old(self).remaining().drop_first(),
    {
        match self.iter.next() {
            Some(entry) => Some(entry.1),
            None => None,
        }
    }
}

impl<K, V> HashTrie<K, V> {
    /// A trie that was just made holds nothing under any key.
    proof fn lemma_fresh(key: Seq<K>)
        ensures
            forall|t: HashTrie<K, V>| t.bare() ==> #[trigger] t.lookup(key) is None,
    {
    }
}

} // verus!
