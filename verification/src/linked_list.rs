//! A doubly linked list with constant-time insertion at the head, removal at
//! the tail, and removal of any node through a handle.
//!
//! The nodes lie in an arena and name each other by position in it.  A list
//! is read as the `Seq` of its values from head to tail (`list@`);
//! `list.ids()` gives, value by value, the identity of the node that holds
//! it, which is what a handle carries.
use std::marker::PhantomData;
use vstd::prelude::*;

verus! {

/// A place in the arena: a value and the places of its two neighbours while
/// it is part of the list, nothing while it is not.
struct Node<K> {
    key: Option<K>,
    prev: Option<usize>,
    next: Option<usize>,
}

impl<K> Node<K> {
    /// A place that holds `key` between the places `prev` and `next`.
    fn new(key: K, prev: Option<usize>, next: Option<usize>) -> (node: Self)
        ensures
            node.key == Some(key),
            node.prev == prev,
            node.next == next,
    {
        Node { key: Some(key), prev, next }
    }
}

/// A handle to a particular node of a `LinkedList`, for removing it.  The
/// handle is stale once its node has left the list.
pub struct LinkedListHandle<K> {
    slot: usize,
    list: PhantomData<K>,
}

impl<K> LinkedListHandle<K> {
    /// The identity of the node that the handle is for.
    pub closed spec fn id(self) -> int {
        self.slot as int
    }
}

/// A doubly linked list which supports constant time head insertion, tail
/// deletion, and random deletion.
pub struct LinkedList<A> {
    nodes: Vec<Node<A>>,
    vacant: Vec<usize>,
    head: Option<usize>,
    tail: Option<usize>,
    order: Ghost<Seq<int>>,
}

/// The places of `o` are distinct places of `nodes` that hold a value, and
/// each names the place before it and the place after it.
spec fn chained<A>(nodes: Seq<Node<A>>, o: Seq<int>) -> bool {
    &&& nodes.len() <= usize::MAX
    &&& forall|p: int|
        0 <= p < o.len() ==> 0 <= #[trigger] o[p] < nodes.len() && nodes[o[p]].key is Some
    &&& forall|p: int, q: int| 0 <= p < q < o.len() ==> #[trigger] o[p] != #[trigger] o[q]
    &&& forall|p: int, q: int|
        0 <= p && q == p + 1 && q < o.len() ==> nodes[#[trigger] o[p]].next == Some(o[q] as usize)
            && nodes[#[trigger] o[q]].prev == Some(o[p] as usize)
    &&& o.len() > 0 ==> nodes[o[0]].prev is None && nodes[o[o.len() - 1]].next is None
}

/// The places of `vacant` are distinct places of `nodes` that hold no value.
spec fn unused<A>(nodes: Seq<Node<A>>, vacant: Seq<usize>) -> bool {
    &&& forall|f: int|
        0 <= f < vacant.len() ==> (#[trigger] vacant[f]) < nodes.len() && nodes[vacant[f] as int].key
            is None
    &&& forall|f: int, g: int|
        0 <= f < g < vacant.len() ==> #[trigger] vacant[f] != #[trigger] vacant[g]
}

/// The first place of `o`, as `head` stores it.
spec fn first_of(o: Seq<int>) -> Option<usize> {
    if o.len() == 0 {
        None
    } else {
        Some(o[0] as usize)
    }
}

/// The last place of `o`, as `tail` stores it.
spec fn last_of(o: Seq<int>) -> Option<usize> {
    if o.len() == 0 {
        None
    } else {
        Some(o[o.len() - 1] as usize)
    }
}

impl<A> LinkedList<A> {
    /// The identities of the nodes, from head to tail.
    pub closed spec fn ids(self) -> Seq<int> {
        self.order@
    }

    /// The values, from head to tail.
    pub closed spec fn values(self) -> Seq<A> {
        Seq::new(self.order@.len(), |p: int| self.nodes@[self.order@[p]].key.unwrap())
    }

    /// The invariant of the list: the nodes of `ids` are distinct places of
    /// the arena that hold a value and name their neighbours, `head` and
    /// `tail` name the first and the last of them, and every place that is
    /// kept for reuse is empty.
    pub closed spec fn wf(self) -> bool {
        &&& chained(self.nodes@, self.order@)
        &&& unused(self.nodes@, self.vacant@)
        &&& self.head == first_of(self.order@)
        &&& self.tail == last_of(self.order@)
    }

    /// A list has one identity for each value, and no identity twice.
    pub proof fn lemma_ids(self)
        requires
            self.wf(),
        ensures
            self.ids().len() == self@.len(),
            self.ids().no_duplicates(),
    {
    }

    /// The empty list.
    pub fn new() -> (list: Self)
        ensures
            list.wf(),
            list@ == Seq::<A>::empty(),
            list.ids() == Seq::<int>::empty(),
    {
        let list = LinkedList {
            nodes: Vec::new(),
            vacant: Vec::new(),
            head: None,
            tail: None,
            order: Ghost(Seq::empty()),
        };
        proof {
            assert(list.values() =~= Seq::<A>::empty());
        }
        list
    }

    /// Puts `k` in front of the list.  The handle that is returned is for
    /// the new node, whose identity no node of the list had.
    pub fn push_head(&mut self, k: A) -> (handle: LinkedListHandle<A>)
        requires
            old(self).wf(),
        ensures
            final(self).wf(),
            final(self)@ == seq![k] + old(self)@,
            final(self).ids() == seq![handle.id()] + old(self).ids(),
            !old(self).ids().contains(handle.id()),
    {
        let ghost o = self.order@;
        let ghost nodes0 = self.nodes@;
        let ghost vacant0 = self.vacant@;
        let ghost values0 = self.values();
        let old_head = self.head;
        let node = Node::new(k, None, old_head);
        let slot = match self.vacant.pop() {
            Some(slot) => {
                proof {
                    assert(vacant0[vacant0.len() - 1] == slot);
                }
                self.nodes[slot] = node;
                slot
            },
            None => {
                self.nodes.push(node);
                self.nodes.len() - 1
            },
        };
        proof {
            assert forall|p: int| 0 <= p < o.len() implies #[trigger] o[p] != slot by {}
        }
        match old_head {
            Some(first) => {
                self.nodes[first].prev = Some(slot);
            },
            None => {
                self.tail = Some(slot);
            },
        }
        self.head = Some(slot);
        self.order = Ghost(seq![slot as int] + o);
        proof {
            let n = self.order@;
            let nodes1 = self.nodes@;
            assert forall|p: int| 0 <= p < n.len() implies 0 <= #[trigger] n[p] < nodes1.len()
                && nodes1[n[p]].key is Some by {
                if p > 0 {
                    assert(n[p] == o[p - 1]);
                }
            }
            assert forall|p: int, q: int| 0 <= p < q < n.len() implies #[trigger] n[p]
                != #[trigger] n[q] by {
                assert(n[q] == o[q - 1]);
                if p > 0 {
                    assert(n[p] == o[p - 1]);
                }
            }
            assert forall|p: int, q: int| 0 <= p && q == p + 1 && q < n.len() implies nodes1[
            #[trigger] n[p]].next == Some(n[q] as usize) && nodes1[#[trigger] n[q]].prev == Some(
                n[p] as usize,
            ) by {
                assert(n[q] == o[q - 1]);
                if p > 0 {
                    assert(n[p] == o[p - 1]);
                    assert(o[p] != o[0]);
                }
            }
            if o.len() > 0 {
                assert(n[n.len() - 1] == o[o.len() - 1]);
            }
            assert(self.nodes.len() == nodes1.len());
            assert(chained(nodes1, n));
            assert forall|f: int| 0 <= f < self.vacant@.len() implies (#[trigger] self.vacant@[f])
                < nodes1.len() && nodes1[self.vacant@[f] as int].key is None by {
                assert(self.vacant@[f] == vacant0[f]);
                if o.len() > 0 {
                    assert(nodes0[o[0]].key is Some);
                }
            }
            assert forall|f: int, g: int| 0 <= f < g < self.vacant@.len() implies #[trigger]
                self.vacant@[f] != #[trigger] self.vacant@[g] by {
                assert(self.vacant@[f] == vacant0[f]);
                assert(self.vacant@[g] == vacant0[g]);
            }
            assert(self.values() =~= seq![k] + values0) by {
                assert forall|p: int| 0 < p < n.len() implies self.values()[p] == values0[p
                    - 1] by {
                    assert(n[p] == o[p - 1]);
                }
            }
        }
        LinkedListHandle { slot, list: PhantomData }
    }

    /// Takes the last value off the list: `None` from the empty list.  The
    /// handle of the node that held it is stale from then on.
    pub fn pop_tail(&mut self) -> (last: Option<A>)
        requires
            old(self).wf(),
        ensures
            final(self).wf(),
            old(self)@.len() == 0 ==> last is None && final(self)@ == old(self)@
                && final(self).ids() == old(self).ids(),
            old(self)@.len() > 0 ==> last == Some(old(self)@.last())
                && final(self)@ == old(self)@.drop_last()
                && final(self).ids() == old(self).ids().drop_last(),
    {
        let ghost o = self.order@;
        let ghost nodes0 = self.nodes@;
        let ghost vacant0 = self.vacant@;
        let ghost values0 = self.values();
        match self.tail {
            Some(slot) => {
                let ghost end = o.len() - 1;
                proof {
                    assert(o[end] == slot);
                    if end > 0 {
                        assert(o[end - 1] != o[end]);
                    }
                }
                let key = self.nodes[slot].key.take();
                let prev = self.nodes[slot].prev;
                self.nodes[slot].prev = None;
                self.nodes[slot].next = None;
                match prev {
                    Some(p) => {
                        self.nodes[p].next = None;
                        self.tail = Some(p);
                    },
                    None => {
                        self.head = None;
                        self.tail = None;
                    },
                }
                self.vacant.push(slot);
                self.order = Ghost(o.drop_last());
                proof {
                    let n = self.order@;
                    let nodes1 = self.nodes@;
                    assert forall|p: int| 0 <= p < n.len() implies 0 <= #[trigger] n[p]
                        < nodes1.len() && nodes1[n[p]].key is Some by {
                        assert(n[p] == o[p]);
                        assert(o[p] != o[end]);
                    }
                    assert forall|p: int, q: int| 0 <= p < q < n.len() implies #[trigger] n[p]
                        != #[trigger] n[q] by {
                        assert(n[p] == o[p] && n[q] == o[q]);
                    }
                    assert forall|p: int, q: int|
                        0 <= p && q == p + 1 && q < n.len() implies nodes1[#[trigger] n[p]].next
                        == Some(n[q] as usize) && nodes1[#[trigger] n[q]].prev == Some(
                        n[p] as usize,
                    ) by {
                        assert(n[p] == o[p] && n[q] == o[q]);
                        assert(o[p] != o[end] && o[q] != o[end]);
                        assert(o[p] != o[end - 1]);
                    }
                    if n.len() > 0 {
                        assert(n[0] == o[0]);
                        assert(o[0] != o[end]);
                        assert(n[n.len() - 1] == o[end - 1]);
                    }
                    assert(self.nodes.len() == nodes1.len());
            assert(chained(nodes1, n));
                    assert forall|f: int| 0 <= f < self.vacant@.len() implies (
                    #[trigger] self.vacant@[f]) < nodes1.len()
                        && nodes1[self.vacant@[f] as int].key is None by {
                        if f < vacant0.len() {
                            assert(self.vacant@[f] == vacant0[f]);
                        }
                    }
                    assert forall|f: int, g: int|
                        0 <= f < g < self.vacant@.len() implies #[trigger] self.vacant@[f]
                        != #[trigger] self.vacant@[g] by {
                        assert(self.vacant@[f] == vacant0[f]);
                        if g < vacant0.len() {
                            assert(self.vacant@[g] == vacant0[g]);
                        }
                    }
                    assert(self.values() =~= values0.drop_last()) by {
                        assert forall|p: int| 0 <= p < n.len() implies self.values()[p]
                            == values0[p] by {
                            assert(n[p] == o[p]);
                            assert(o[p] != o[end]);
                        }
                    }
                }
                key
            },
            None => None,
        }
    }

    /// Takes the node of `handle` out of the list, and drops its value.  The
    /// handle has to be for a node of this list; it is stale afterwards.
    pub fn remove(&mut self, handle: LinkedListHandle<A>)
        requires
            old(self).wf(),
            old(self).ids().contains(handle.id()),
        ensures
            final(self).wf(),
            exists|p: int|
                0 <= p < old(self).ids().len() && #[trigger] old(self).ids()[p] == handle.id()
                    && final(self)@ == old(self)@.remove(p)
                    && final(self).ids() == old(self).ids().remove(p),
    {
        let ghost o = self.order@;
        let ghost nodes0 = self.nodes@;
        let ghost vacant0 = self.vacant@;
        let ghost values0 = self.values();
        let ghost at = choose|p: int| 0 <= p < o.len() && o[p] == handle.slot as int;
        let ghost end = o.len() - 1;
        let slot = handle.slot;
        proof {
            assert(o[at] == slot);
            if at > 0 {
                assert(o[at - 1] != o[at]);
            }
            if at < end {
                assert(o[at + 1] != o[at]);
            }
            if 0 < at < end {
                assert(o[at - 1] != o[at + 1]);
            }
        }
        let prev = self.nodes[slot].prev;
        let next = self.nodes[slot].next;
        self.nodes[slot].key = None;
        self.nodes[slot].prev = None;
        self.nodes[slot].next = None;
        match prev {
            Some(p) => {
                self.nodes[p].next = next;
            },
            None => {
                self.head = next;
            },
        }
        match next {
            Some(n) => {
                self.nodes[n].prev = prev;
            },
            None => {
                self.tail = prev;
            },
        }
        self.vacant.push(slot);
        self.order = Ghost(o.remove(at));
        proof {
            let n = self.order@;
            let nodes1 = self.nodes@;
            let was = |p: int|
                if p < at {
                    p
                } else {
                    p + 1
                };
            assert forall|p: int| 0 <= p < n.len() implies #[trigger] n[p] == o[was(p)] && o[was(
                p,
            )] != o[at] by {}
            assert forall|p: int| 0 <= p < n.len() implies 0 <= #[trigger] n[p] < nodes1.len()
                && nodes1[n[p]].key is Some by {
                assert(n[p] == o[was(p)]);
            }
            assert forall|p: int, q: int| 0 <= p < q < n.len() implies #[trigger] n[p]
                != #[trigger] n[q] by {
                assert(n[p] == o[was(p)] && n[q] == o[was(q)]);
            }
            assert forall|p: int, q: int| 0 <= p && q == p + 1 && q < n.len() implies nodes1[
            #[trigger] n[p]].next == Some(n[q] as usize) && nodes1[#[trigger] n[q]].prev == Some(
                n[p] as usize,
            ) by {
                assert(n[p] == o[was(p)] && n[q] == o[was(q)]);
                if q < at {
                    assert(o[p] != o[at - 1]);
                    if at < end {
                        assert(o[q] != o[at + 1]);
                        assert(o[p] != o[at + 1]);
                    }
                } else if p >= at {
                    assert(o[q + 1] != o[at + 1]);
                    assert(o[p + 1] != o[at + 1] || p == at);
                    if at > 0 {
                        assert(o[p + 1] != o[at - 1]);
                        assert(o[q + 1] != o[at - 1]);
                    }
                } else {
                    assert(p == at - 1 && q == at);
                    assert(nodes0[o[at]].next == Some(o[at + 1] as usize));
                    assert(nodes0[o[at]].prev == Some(o[at - 1] as usize));
                }
            }
            if n.len() > 0 {
                assert(n[0] == o[was(0)]);
                assert(n[n.len() - 1] == o[was(n.len() - 1)]);
                if at == 0 {
                    assert(nodes0[o[0]].prev is None);
                } else {
                    assert(o[0] != o[at]);
                    if at < end {
                        assert(o[0] != o[at + 1]);
                    }
                }
                if at == end {
                    assert(nodes0[o[end]].next is None);
                } else {
                    assert(o[end] != o[at]);
                    if at > 0 {
                        assert(o[end] != o[at - 1]);
                    }
                }
            }
            assert(self.nodes.len() == nodes1.len());
            assert(chained(nodes1, n));
            assert forall|f: int| 0 <= f < self.vacant@.len() implies (#[trigger] self.vacant@[f])
                < nodes1.len() && nodes1[self.vacant@[f] as int].key is None by {
                if f < vacant0.len() {
                    assert(self.vacant@[f] == vacant0[f]);
                }
            }
            assert forall|f: int, g: int| 0 <= f < g < self.vacant@.len() implies #[trigger]
                self.vacant@[f] != #[trigger] self.vacant@[g] by {
                assert(self.vacant@[f] == vacant0[f]);
                if g < vacant0.len() {
                    assert(self.vacant@[g] == vacant0[g]);
                }
            }
            assert(self.values() =~= values0.remove(at)) by {
                assert forall|p: int| 0 <= p < n.len() implies self.values()[p] == values0.remove(
                    at,
                )[p] by {
                    assert(n[p] == o[was(p)]);
                }
            }
            assert(old(self).ids()[at] == handle.id());
        }
    }
}

impl<A> Default for LinkedList<A> {
    /// The empty list.
    fn default() -> (list: Self)
        ensures
            list.wf(),
            list@ == Seq::<A>::empty(),
            list.ids() == Seq::<int>::empty(),
    {
        LinkedList::new()
    }
}

impl<A> View for LinkedList<A> {
    type V = Seq<A>;

    closed spec fn view(&self) -> Seq<A> {
        self.values()
    }
}

} // verus!
