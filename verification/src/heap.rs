//! A binary min-heap.
//!
//! A heap is read as the `Multiset` of its values (`heap@`).  The values lie
//! in a deque, the children of position `i` at `2 * i + 1` and `2 * i + 2`;
//! `wf` says that no value sorts before the value at its parent position, so
//! that the first position holds a least value.
use crate::order::{
    le, lemma_le_total, lemma_le_transitive, lemma_lt_transitive, lemma_trichotomy, less, lt,
    total_order,
};
use std::collections::VecDeque;
use vstd::multiset::Multiset;
use vstd::prelude::*;
use vstd::seq_lib::{to_multiset_build, to_multiset_remove, to_multiset_update};

verus! {

/// The position above position `j`.
pub open spec fn parent(j: int) -> int {
    (j - 1) / 2
}

/// No value sorts before the value at its parent position.
pub open spec fn heap_ordered<A: Ord>(s: Seq<A>) -> bool {
    forall|j: int| 0 < j < s.len() ==> le(s[parent(j)], #[trigger] s[j])
}

/// `heap_ordered`, but for the value at position `at`, which may sort
/// before the value above it.
pub open spec fn ordered_but_above<A: Ord>(s: Seq<A>, at: int) -> bool {
    forall|j: int| 0 < j < s.len() && j != at ==> le(s[parent(j)], #[trigger] s[j])
}

/// `heap_ordered`, but for the values right below position `at`, which may
/// sort before the value at `at`.
pub open spec fn ordered_but_below<A: Ord>(s: Seq<A>, at: int) -> bool {
    forall|j: int| 0 < j < s.len() && parent(j) != at ==> le(s[parent(j)], #[trigger] s[j])
}

/// The value above position `at` does not sort after the values right below
/// `at`.
pub open spec fn bridged<A: Ord>(s: Seq<A>, at: int) -> bool {
    at > 0 ==> forall|j: int|
        0 < j < s.len() && parent(j) == at ==> le(s[parent(at)], #[trigger] s[j])
}

/// `s` with the values at `i` and `j` exchanged.
pub open spec fn swapped<A>(s: Seq<A>, i: int, j: int) -> Seq<A> {
    s.update(i, s[j]).update(j, s[i])
}

/// Of position `at` and the positions right below it, the one whose value
/// sorts first: `at` itself unless a value below sorts strictly before its
/// value, and of two such values the second only where it sorts strictly
/// before the first.
pub open spec fn least_of_three<A: Ord>(s: Seq<A>, at: int) -> int {
    let first = 2 * at + 1;
    let second = first + 1;
    let best = if first < s.len() && lt(s[first], s[at]) {
        first
    } else {
        at
    };
    if second < s.len() && lt(s[second], s[best]) {
        second
    } else {
        best
    }
}

/// `s` after the value at `at` has sunk to its place: as long as a value
/// right below it sorts before it, it changes places with the least of them.
pub open spec fn sunk<A: Ord>(s: Seq<A>, at: int) -> Seq<A>
    decreases s.len() - at,
{
    if 0 <= at < s.len() && least_of_three(s, at) != at {
        sunk(swapped(s, least_of_three(s, at), at), least_of_three(s, at))
    } else {
        s
    }
}

/// `s` after the value at `at` has risen to its place: as long as it sorts
/// before the value above it, the two change places.
pub open spec fn risen<A: Ord>(s: Seq<A>, at: int) -> Seq<A>
    decreases at,
{
    if 0 < at < s.len() && lt(s[at], s[parent(at)]) {
        risen(swapped(s, parent(at), at), parent(at))
    } else {
        s
    }
}

/// Exchanging two values keeps the multiset of values.
pub proof fn lemma_swapped_multiset<A>(s: Seq<A>, i: int, j: int)
    requires
        0 <= i < s.len(),
        0 <= j < s.len(),
    ensures
        swapped(s, i, j).to_multiset() == s.to_multiset(),
        swapped(s, i, j).len() == s.len(),
{
    let once = s.update(i, s[j]);
    to_multiset_update(s, i, s[j]);
    to_multiset_update(once, j, s[i]);
    vstd::seq_lib::to_multiset_contains(s, s[i]);
    vstd::seq_lib::to_multiset_contains(s, s[j]);
    assert(s.contains(s[i]));
    assert(s.contains(s[j]));
    assert(swapped(s, i, j).to_multiset() =~= s.to_multiset());
}

/// The first value of a heap-ordered sequence does not sort after any of
/// its values.
pub proof fn lemma_first_is_least<A: Ord>(s: Seq<A>, j: int)
    requires
        total_order::<A>(),
        heap_ordered(s),
        0 <= j < s.len(),
    ensures
        le(s[0], s[j]),
    decreases j,
{
    if j == 0 {
        lemma_le_total(s[0], s[0]);
    } else {
        lemma_first_is_least(s, parent(j));
        lemma_le_transitive(s[0], s[parent(j)], s[j]);
    }
}

/// A binary min-heap.
#[derive(Debug, PartialEq, Clone, Default)]
pub struct Heap<A> {
    inner: VecDeque<A>,
}

impl<A> Heap<A> {
    /// The values in the order in which the heap stores them.
    pub closed spec fn layout(self) -> Seq<A> {
        self.inner@
    }

    /// The empty heap.
    pub fn new() -> (heap: Self)
        ensures
            heap.layout() == Seq::<A>::empty(),
            heap@ == Multiset::<A>::empty(),
    {
        let heap = Heap { inner: VecDeque::new() };
        proof {
            broadcast use vstd::multiset::group_multiset_axioms;

            vstd::seq_lib::to_multiset_len(heap.inner@);
            assert(heap.inner@.to_multiset() =~= Multiset::<A>::empty());
        }
        heap
    }
}

impl<A> View for Heap<A> {
    type V = Multiset<A>;

    open spec fn view(&self) -> Multiset<A> {
        self.layout().to_multiset()
    }
}

/// `VecDeque::swap`: exchanges the values at positions `i` and `j`, counted
/// from the front.  It panics on a position that is out of bounds, which the
/// precondition leaves out.
#[verifier::external_body]
fn deque_swap<A>(deque: &mut VecDeque<A>, i: usize, j: usize)
    requires
        i < old(deque)@.len(),
        j < old(deque)@.len(),
    ensures
        final(deque)@ == swapped(old(deque)@, i as int, j as int),
{
    deque.swap(i, j)
}

/// `VecDeque::swap_remove_back`: takes out the value at position `index` and
/// puts the last value in its place; `None`, and no change, when `index` is
/// out of bounds.
#[verifier::external_body]
fn deque_swap_remove_back<A>(deque: &mut VecDeque<A>, index: usize) -> (removed: Option<A>)
    ensures
        index >= old(deque)@.len() ==> removed is None && final(deque)@ == old(deque)@,
        index < old(deque)@.len() ==> removed == Some(old(deque)@[index as int]) && final(deque)@
            == old(deque)@.update(index as int, old(deque)@.last()).drop_last(),
{
    deque.swap_remove_back(index)
}

impl<A: Ord> Heap<A> {
    /// The invariant of the heap.
    pub open spec fn wf(self) -> bool {
        heap_ordered(self.layout())
    }

    /// The number of values.
    pub fn size(&self) -> (n: usize)
        ensures
            n == self.layout().len(),
            n == self@.len(),
    {
        proof {
            vstd::seq_lib::to_multiset_len(self.inner@);
        }
        self.inner.len()
    }

    /// Takes a least value out of the heap: `None` from the empty heap.
    pub fn pop(&mut self) -> (least: Option<A>)
        requires
            total_order::<A>(),
            old(self).wf(),
        ensures
            final(self).wf(),
            old(self)@.len() == 0 ==> least is None && final(self)@ == old(self)@
                && final(self).layout() == old(self).layout(),
            old(self)@.len() > 0 ==> least == Some(old(self).layout()[0])
                && old(self)@.contains(least.unwrap())
                && final(self)@ == old(self)@.remove(least.unwrap())
                && final(self).layout() == sunk(
                old(self).layout().update(0, old(self).layout().last()).drop_last(),
                0,
            ),
            least is Some ==> forall|x: A| #[trigger]
                old(self)@.contains(x) ==> le(least.unwrap(), x),
    {
        let ghost before = self.inner@;
        proof {
            vstd::seq_lib::to_multiset_len(before);
        }
        let head = deque_swap_remove_back(&mut self.inner, 0);
        if head.is_some() {
            proof {
                let moved = before.update(0, before.last());
                to_multiset_update(before, 0, before.last());
                assert(moved.drop_last() =~= moved.remove(moved.len() - 1));
                to_multiset_remove(moved, moved.len() - 1);
                vstd::seq_lib::to_multiset_contains(before, before[0]);
                vstd::seq_lib::to_multiset_contains(before, before.last());
                assert(before.contains(before[0]));
                assert(before.contains(before.last()));
                assert(self.inner@.to_multiset() =~= before.to_multiset().remove(before[0]));
                assert forall|x: A| #[trigger] before.to_multiset().contains(x) implies le(
                    before[0],
                    x,
                ) by {
                    vstd::seq_lib::to_multiset_contains(before, x);
                    let j = choose|j: int| 0 <= j < before.len() && before[j] == x;
                    lemma_first_is_least(before, j);
                }
                assert forall|j: int|
                    0 < j < self.inner@.len() && parent(j) != 0 implies le(
                    self.inner@[parent(j)],
                    #[trigger] self.inner@[j],
                ) by {
                    assert(le(before[parent(j)], before[j]));
                }
            }
            self.sift_down();
        }
        head
    }

    /// Adds a value to the heap.
    pub fn push(&mut self, a: A)
        requires
            total_order::<A>(),
            old(self).wf(),
        ensures
            final(self).layout() == risen(
                old(self).layout().push(a),
                old(self).layout().len() as int,
            ),
            final(self).wf(),
            final(self)@ == old(self)@.insert(a),
    {
        let ghost before = self.inner@;
        self.inner.push_back(a);
        proof {
            to_multiset_build(before, a);
            assert forall|j: int|
                0 < j < self.inner@.len() && j != self.inner@.len() - 1 implies le(
                self.inner@[parent(j)],
                #[trigger] self.inner@[j],
            ) by {
                assert(le(before[parent(j)], before[j]));
            }
        }
        self.sift_up();
    }

    /// Lets the first value sink to its place: while a value right below it
    /// sorts before it, it changes places with the least of them.  Restores
    /// the invariant of a heap in which only the first value may be out of
    /// place, and leaves a heap that has its invariant as it is.
    pub fn sift_down(&mut self)
        requires
            total_order::<A>(),
            ordered_but_below(old(self).layout(), 0),
        ensures
            final(self).layout() == sunk(old(self).layout(), 0),
            final(self).wf(),
            final(self)@ == old(self)@,
            old(self).wf() ==> final(self).layout() == old(self).layout(),
    {
        let len = self.inner.len();
        if len <= 1 {
            return ;
        }
        let mut index: usize = 0;
        loop
            invariant
                total_order::<A>(),
                len == self.inner@.len(),
                index < len,
                ordered_but_below(self.inner@, index as int),
                bridged(self.inner@, index as int),
                self.inner@.to_multiset() == old(self).inner@.to_multiset(),
                old(self).wf() ==> self.inner@ == old(self).inner@,
                sunk(self.inner@, index as int) == sunk(old(self).inner@, 0),
            ensures
                heap_ordered(self.inner@),
                self.inner@.to_multiset() == old(self).inner@.to_multiset(),
                old(self).wf() ==> self.inner@ == old(self).inner@,
                self.inner@ == sunk(old(self).inner@, 0),
            decreases len - index,
        {
            let ghost s = self.inner@;
            let mut new_index = index;
            if index < len / 2 {
                let first_child = 2 * index + 1;
                if less(&self.inner[first_child], &self.inner[new_index]) {
                    new_index = first_child;
                }
                let ghost mid = new_index;
                let second_child = first_child + 1;
                if second_child < len {
                    if less(&self.inner[second_child], &self.inner[new_index]) {
                        new_index = second_child;
                    }
                }
                proof {
                    let (x, c1) = (s[index as int], s[first_child as int]);
                    lemma_trichotomy(c1, x);
                    lemma_trichotomy(x, c1);
                    lemma_le_total(s[new_index as int], s[new_index as int]);
                    if second_child < len {
                        let c2 = s[second_child as int];
                        lemma_trichotomy(c2, x);
                        lemma_trichotomy(x, c2);
                        lemma_trichotomy(c2, c1);
                        lemma_trichotomy(c1, c2);
                        if new_index == second_child {
                            if mid == first_child {
                                lemma_lt_transitive(c2, c1, x);
                            } else {
                                lemma_le_total(c2, x);
                                lemma_le_transitive(c2, x, c1);
                            }
                        }
                    }
                    assert(le(s[new_index as int], s[first_child as int]));
                    assert(second_child < len ==> le(s[new_index as int], s[second_child as int]));
                    assert(new_index != index ==> lt(s[new_index as int], x));
                }
            }
            if new_index != index {
                deque_swap(&mut self.inner, new_index, index);
                proof {
                    lemma_swapped_multiset(s, new_index as int, index as int);
                    let t = self.inner@;
                    assert(parent(new_index as int) == index);
                    assert forall|j: int|
                        0 < j < t.len() && parent(j) != new_index implies le(
                        t[parent(j)],
                        #[trigger] t[j],
                    ) by {
                        if j == new_index {
                        } else if parent(j) == index {
                        } else if j == index {
                            assert(le(s[parent(index as int)], s[new_index as int]));
                        } else {
                            assert(le(s[parent(j)], s[j]));
                        }
                    }
                    assert forall|j: int| 0 < j < t.len() && parent(j) == new_index implies le(
                        t[parent(new_index as int)],
                        #[trigger] t[j],
                    ) by {
                        assert(le(s[parent(j)], s[j]));
                    }
                    if old(self).wf() {
                        assert(le(s[index as int], s[new_index as int]));
                        lemma_trichotomy(s[index as int], s[new_index as int]);
                    }
                }
                index = new_index;
            } else {
                proof {
                    assert forall|j: int| 0 < j < s.len() implies le(s[parent(j)], #[trigger] s[j]) by {
                        if parent(j) == index {
                            assert(j == 2 * index + 1 || j == 2 * index + 2);
                        }
                    }
                }
                break ;
            }
        }
    }

    /// Lets the last value rise to its place: while it sorts before the
    /// value above it, the two change places.  Restores the invariant of a
    /// heap in which only the last value may be out of place, and leaves a
    /// heap that has its invariant as it is.
    pub fn sift_up(&mut self)
        requires
            total_order::<A>(),
            ordered_but_above(old(self).layout(), old(self).layout().len() - 1),
        ensures
            final(self).layout() == risen(old(self).layout(), old(self).layout().len() - 1),
            final(self).wf(),
            final(self)@ == old(self)@,
            old(self).wf() ==> final(self).layout() == old(self).layout(),
    {
        let len = self.inner.len();
        if len <= 1 {
            return ;
        }
        let mut index = len - 1;
        loop
            invariant
                total_order::<A>(),
                len == self.inner@.len(),
                index < len,
                ordered_but_above(self.inner@, index as int),
                bridged(self.inner@, index as int),
                self.inner@.to_multiset() == old(self).inner@.to_multiset(),
                old(self).wf() ==> self.inner@ == old(self).inner@,
                risen(self.inner@, index as int) == risen(old(self).inner@, len - 1),
            ensures
                heap_ordered(self.inner@),
                self.inner@.to_multiset() == old(self).inner@.to_multiset(),
                old(self).wf() ==> self.inner@ == old(self).inner@,
                self.inner@ == risen(old(self).inner@, len - 1),
            decreases index,
        {
            let ghost s = self.inner@;
            let mut new_index = index;
            if index > 0 {
                let above = (index - 1) / 2;
                if less(&self.inner[index], &self.inner[above]) {
                    new_index = above;
                }
                proof {
                    lemma_le_total(s[index as int], s[above as int]);
                    lemma_trichotomy(s[above as int], s[index as int]);
                }
            }
            if new_index != index {
                deque_swap(&mut self.inner, new_index, index);
                proof {
                    lemma_swapped_multiset(s, new_index as int, index as int);
                    let t = self.inner@;
                    assert(parent(index as int) == new_index);
                    assert forall|j: int| 0 < j < t.len() && j != new_index implies le(
                        t[parent(j)],
                        #[trigger] t[j],
                    ) by {
                        if j == index {
                        } else if parent(j) == new_index {
                            assert(le(s[parent(j)], s[j]));
                            lemma_le_transitive(s[index as int], s[new_index as int], s[j]);
                        } else if parent(j) == index {
                            assert(le(s[parent(index as int)], s[j]));
                        } else {
                            assert(le(s[parent(j)], s[j]));
                        }
                    }
                    assert forall|j: int| 0 < j < t.len() && parent(j) == new_index && new_index
                        > 0 implies le(t[parent(new_index as int)], #[trigger] t[j]) by {
                        assert(le(s[parent(new_index as int)], s[new_index as int]));
                        if j != index {
                            assert(le(s[parent(j)], s[j]));
                            lemma_le_transitive(
                                s[parent(new_index as int)],
                                s[new_index as int],
                                s[j],
                            );
                        }
                    }
                    if old(self).wf() {
                        assert(le(s[new_index as int], s[index as int]));
                    }
                }
                index = new_index;
            } else {
                break ;
            }
        }
    }
}

} // verus!
