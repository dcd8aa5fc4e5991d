//! An unbalanced binary search tree that holds a set of values.
//!
//! A tree is read as the `Set` of its values (`tree@`).  `ordered` is the
//! search-tree invariant, which `insert` and `remove` keep.
use crate::order::{
    lemma_lt_asymmetric, lemma_lt_irreflexive, lemma_lt_transitive, lemma_trichotomy, lt,
    total_order,
};
use core::cmp::Ordering;
use vstd::prelude::*;

verus! {

/// An unbalanced binary search tree.
#[derive(Debug)]
pub enum BSTree<A> {
    Node { value: A, left: Box<BSTree<A>>, right: Box<BSTree<A>> },
    Nil,
}

impl<A> BSTree<A> {
    /// The values of the tree.
    pub open spec fn as_set(self) -> Set<A>
        decreases self,
    {
        match self {
            BSTree::Nil => Set::empty(),
            BSTree::Node { value, left, right } => left.as_set().union(right.as_set()).insert(
                value,
            ),
        }
    }

    /// The values of the tree in the order of an in-order traversal.
    pub open spec fn in_order(self) -> Seq<A>
        decreases self,
    {
        match self {
            BSTree::Nil => Seq::empty(),
            BSTree::Node { value, left, right } => left.in_order().push(value) + right.in_order(),
        }
    }

    /// The length of the longest path from here down to an empty subtree.
    pub open spec fn spec_height(self) -> nat
        decreases self,
    {
        match self {
            BSTree::Nil => 0,
            BSTree::Node { value, left, right } => {
                let l = left.spec_height();
                let r = right.spec_height();
                if l >= r {
                    l + 1
                } else {
                    r + 1
                }
            },
        }
    }

    /// Height of the right subtree minus height of the left subtree; 0 for
    /// the empty tree.
    pub open spec fn spec_balance(self) -> int {
        match self {
            BSTree::Nil => 0,
            BSTree::Node { value, left, right } => right.spec_height() - left.spec_height(),
        }
    }

    /// The value at the root of a tree that is not empty.
    pub open spec fn root_value(self) -> A
        recommends
            self is Node,
    {
        self->value
    }

    /// `s` is `self` or a subtree of it, at any depth.
    pub open spec fn has_subtree(self, s: Self) -> bool
        decreases self,
    {
        self == s || match self {
            BSTree::Nil => false,
            BSTree::Node { value, left, right } => left.has_subtree(s) || right.has_subtree(s),
        }
    }

    /// The empty tree.
    pub fn new() -> (tree: Self)
        ensures
            tree == BSTree::<A>::Nil,
            tree@ == Set::<A>::empty(),
    {
        BSTree::Nil
    }
}

impl<A> View for BSTree<A> {
    type V = Set<A>;

    open spec fn view(&self) -> Set<A> {
        self.as_set()
    }
}

impl<A> Default for BSTree<A> {
    fn default() -> (tree: Self)
        ensures
            tree == BSTree::<A>::Nil,
    {
        BSTree::Nil
    }
}

impl<A: Ord> BSTree<A> {
    /// At every node the values of the left subtree sort before the node's
    /// value and the values of the right subtree after it.
    pub open spec fn ordered(self) -> bool
        decreases self,
    {
        match self {
            BSTree::Nil => true,
            BSTree::Node { value, left, right } => {
                &&& left.ordered()
                &&& right.ordered()
                &&& forall|x: A| #[trigger] left.as_set().contains(x) ==> lt(x, value)
                &&& forall|x: A| #[trigger] right.as_set().contains(x) ==> lt(value, x)
            },
        }
    }

    /// The tree with `a` in it: the tree itself where it holds `a`, else
    /// the tree with a new leaf for `a` at the place where the search for
    /// `a` ends.
    pub open spec fn with(self, a: A) -> Self
        decreases self,
    {
        match self {
            BSTree::Nil => BSTree::Node {
                value: a,
                left: Box::new(BSTree::Nil),
                right: Box::new(BSTree::Nil),
            },
            BSTree::Node { value, left, right } => if lt(a, value) {
                BSTree::Node { value, left: Box::new(left.with(a)), right }
            } else if lt(value, a) {
                BSTree::Node { value, left, right: Box::new(right.with(a)) }
            } else {
                self
            },
        }
    }

    /// The value that an in-order traversal meets first.
    pub open spec fn least(self) -> A
        recommends
            self is Node,
        decreases self,
    {
        match self {
            BSTree::Nil => arbitrary(),
            BSTree::Node { value, left, right } => if *left is Nil {
                value
            } else {
                left.least()
            },
        }
    }

    /// The tree without the node of its least value, which is replaced by
    /// its right subtree.
    pub open spec fn without_least(self) -> Self
        decreases self,
    {
        match self {
            BSTree::Nil => BSTree::Nil,
            BSTree::Node { value, left, right } => if *left is Nil {
                *right
            } else {
                BSTree::Node { value, left: Box::new(left.without_least()), right }
            },
        }
    }

    /// The tree without `a`: the tree itself where it does not hold `a`.
    /// Else the node of `a` gets the least value of its right subtree, which
    /// leaves that subtree, where it has two subtrees, and is replaced by its
    /// one subtree, or by the empty tree, where it has not.
    pub open spec fn without(self, a: A) -> Self
        decreases self,
    {
        match self {
            BSTree::Nil => BSTree::Nil,
            BSTree::Node { value, left, right } => if lt(a, value) {
                BSTree::Node { value, left: Box::new(left.without(a)), right }
            } else if lt(value, a) {
                BSTree::Node { value, left, right: Box::new(right.without(a)) }
            } else if *left is Node && *right is Node {
                BSTree::Node { value: right.least(), left, right: Box::new(right.without_least()) }
            } else if *left is Node {
                *left
            } else {
                *right
            },
        }
    }

    /// The subtree whose root holds `a`, if the tree holds `a`.
    pub fn search(&self, a: A) -> (found: Option<&BSTree<A>>)
        requires
            total_order::<A>(),
            self.ordered(),
        ensures
            found is Some <==> self@.contains(a),
            found is Some ==> self.has_subtree(*found.unwrap()) && *found.unwrap() is Node
                && found.unwrap().root_value() == a,
        decreases self,
    {
        match self {
            BSTree::Node { value, left, right } => {
                proof {
                    lemma_trichotomy(a, *value);
                    if lt(a, *value) {
                        lemma_lt_asymmetric(a, *value);
                    }
                    if lt(*value, a) {
                        lemma_lt_asymmetric(*value, a);
                    }
                    assert(lt(a, *value) ==> !right.as_set().contains(a));
                    assert(lt(*value, a) ==> !left.as_set().contains(a));
                    lemma_lt_irreflexive(a);
                    reveal(total_order);
                }
                match a.cmp(value) {
                    Ordering::Less => left.search(a),
                    Ordering::Equal => Some(self),
                    Ordering::Greater => right.search(a),
                }
            },
            BSTree::Nil => None,
        }
    }

    /// Adds `a` to the set.  Returns whether the tree held `a` already, in
    /// which case nothing changes.
    pub fn insert(&mut self, a: A) -> (present: bool)
        requires
            total_order::<A>(),
            old(self).ordered(),
        ensures
            final(self).ordered(),
            final(self)@ == old(self)@.insert(a),
            present == old(self)@.contains(a),
            *final(self) == old(self).with(a),
        decreases *old(self),
    {
        let ghost before = *self;
        match self {
            BSTree::Node { value, left, right } => {
                proof {
                    lemma_trichotomy(a, *value);
                    if lt(a, *value) {
                        lemma_lt_asymmetric(a, *value);
                    }
                    if lt(*value, a) {
                        lemma_lt_asymmetric(*value, a);
                    }
                    assert(lt(a, *value) ==> !right.as_set().contains(a));
                    assert(lt(*value, a) ==> !left.as_set().contains(a));
                    lemma_lt_irreflexive(a);
                    reveal(total_order);
                }
                let present = match a.cmp(value) {
                    Ordering::Less => left.insert(a),
                    Ordering::Equal => true,
                    Ordering::Greater => right.insert(a),
                };
                proof {
                    assert(self.as_set() =~= before.as_set().insert(a));
                }
                present
            },
            BSTree::Nil => {
                *self = BSTree::Node {
                    value: a,
                    left: Box::new(BSTree::Nil),
                    right: Box::new(BSTree::Nil),
                };
                proof {
                    assert(self.as_set() =~= before.as_set().insert(a));
                }
                false
            },
        }
    }

    /// Whether the tree holds a value at all.
    pub fn is_node(&self) -> (node: bool)
        ensures
            node == (*self is Node),
    {
        match self {
            BSTree::Node { value: _, left: _, right: _ } => true,
            BSTree::Nil => false,
        }
    }

    /// The value at the root.
    pub fn value(&self) -> (root: Option<&A>)
        ensures
            root == (match *self {
                BSTree::Node { value, left, right } => Some(&value),
                BSTree::Nil => None,
            }),
    {
        match self {
            BSTree::Node { value, left: _, right: _ } => Some(value),
            BSTree::Nil => None,
        }
    }

    /// The height of the tree: 0 for the empty tree, 1 for a single node.
    pub fn height(&self) -> (h: usize)
        requires
            self.spec_height() <= usize::MAX,
        ensures
            h == self.spec_height(),
        decreases self,
    {
        match self {
            BSTree::Node { value: _, left, right } => {
                let l = left.height();
                let r = right.height();
                if l >= r {
                    l + 1
                } else {
                    r + 1
                }
            },
            BSTree::Nil => 0,
        }
    }

    /// Takes `a` out of the set, and returns whether the tree held it.  A
    /// node with two subtrees gets the value of its in-order successor,
    /// which is taken out of the right subtree; a node with one subtree is
    /// replaced by it.
    pub fn remove(&mut self, a: A) -> (present: bool)
        requires
            total_order::<A>(),
            old(self).ordered(),
        ensures
            final(self).ordered(),
            final(self)@ == old(self)@.remove(a),
            present == old(self)@.contains(a),
            *final(self) == old(self).without(a),
        decreases *old(self),
    {
        let ghost before = *self;
        match self {
            BSTree::Node { value, left, right } => {
                proof {
                    lemma_trichotomy(a, *value);
                    if lt(a, *value) {
                        lemma_lt_asymmetric(a, *value);
                    }
                    if lt(*value, a) {
                        lemma_lt_asymmetric(*value, a);
                    }
                    assert(lt(a, *value) ==> !right.as_set().contains(a));
                    assert(lt(*value, a) ==> !left.as_set().contains(a));
                    lemma_lt_irreflexive(*value);
                    assert(!left.as_set().contains(*value));
                    assert(!right.as_set().contains(*value));
                    reveal(total_order);
                }
                match a.cmp(value) {
                    Ordering::Less => {
                        let present = left.remove(a);
                        proof {
                            assert(self.as_set() =~= before.as_set().remove(a));
                        }
                        present
                    },
                    Ordering::Equal => {
                        let has_left = left.is_node();
                        let has_right = right.is_node();
                        if has_left && has_right {
                            let ghost smaller = left.as_set();
                            let ghost larger = right.as_set();
                            right.swap_leftmost(value);
                            proof {
                                assert(larger.contains(*value));
                                assert forall|x: A| #[trigger] smaller.contains(x) implies lt(
                                    x,
                                    *value,
                                ) by {
                                    lemma_lt_transitive(x, a, *value);
                                }
                                if smaller.contains(*value) {
                                    lemma_lt_asymmetric(a, *value);
                                }
                                assert(self.as_set() =~= before.as_set().remove(a));
                            }
                        } else if has_left {
                            let mut promoted = BSTree::Nil;
                            core::mem::swap(&mut promoted, &mut **left);
                            *self = promoted;
                            proof {
                                assert(before->right.as_set() == Set::<A>::empty());
                                assert(self.as_set() =~= before.as_set().remove(a));
                            }
                        } else if has_right {
                            let mut promoted = BSTree::Nil;
                            core::mem::swap(&mut promoted, &mut **right);
                            *self = promoted;
                            proof {
                                assert(before->left.as_set() == Set::<A>::empty());
                                assert(self.as_set() =~= before.as_set().remove(a));
                            }
                        } else {
                            *self = BSTree::Nil;
                            proof {
                                assert(before->left.as_set() == Set::<A>::empty());
                                assert(before->right.as_set() == Set::<A>::empty());
                                assert(self.as_set() =~= before.as_set().remove(a));
                            }
                        }
                        true
                    },
                    Ordering::Greater => {
                        let present = right.remove(a);
                        proof {
                            assert(self.as_set() =~= before.as_set().remove(a));
                        }
                        present
                    },
                }
            },
            BSTree::Nil => {
                proof {
                    assert(self.as_set() =~= before.as_set().remove(a));
                }
                false
            },
        }
    }

    /// Moves the smallest value of the tree into `to`, and replaces the node
    /// that held it by its right subtree.  The value that `to` held is
    /// dropped.  On the empty tree nothing happens.
    fn swap_leftmost(&mut self, to: &mut A)
        requires
            total_order::<A>(),
            old(self).ordered(),
        ensures
            *old(self) is Nil ==> *final(self) == *old(self) && *final(to) == *old(to),
            *old(self) is Node ==> {
                &&& *final(to) == old(self).least()
                &&& *final(self) == old(self).without_least()
                &&& old(self)@.contains(*final(to))
                &&& forall|x: A| #[trigger]
                    old(self)@.contains(x) ==> x == *final(to) || lt(*final(to), x)
                &&& final(self)@ == old(self)@.remove(*final(to))
                &&& final(self).ordered()
            },
        decreases *old(self),
    {
        let ghost before = *self;
        match self {
            BSTree::Node { value, left, right } => {
                if !left.is_node() {
                    core::mem::swap(value, to);
                    let mut promoted = BSTree::Nil;
                    core::mem::swap(&mut promoted, &mut **right);
                    *self = promoted;
                    proof {
                        assert(before->left.as_set() == Set::<A>::empty());
                        assert forall|x: A| #[trigger] before.as_set().contains(x) implies x == *to
                            || lt(*to, x) by {
                            if x != *to {
                                assert(before->right.as_set().contains(x));
                            }
                        }
                        if self.as_set().contains(*to) {
                            lemma_lt_irreflexive(*to);
                        }
                        assert(self.as_set() =~= before.as_set().remove(*to));
                    }
                } else {
                    left.swap_leftmost(to);
                    proof {
                        let root = before->value;
                        assert(before->left.as_set().contains(*to));
                        lemma_lt_asymmetric(*to, root);
                        assert forall|x: A| #[trigger] before.as_set().contains(x) implies x == *to
                            || lt(*to, x) by {
                            if before->right.as_set().contains(x) {
                                lemma_lt_transitive(*to, root, x);
                            }
                        }
                        if before->right.as_set().contains(*to) {
                            lemma_lt_asymmetric(root, *to);
                        }
                        assert(self.as_set() =~= before.as_set().remove(*to));
                    }
                }
            },
            BSTree::Nil => {},
        }
    }

    /// A traversal of the values in ascending order: the in-order
    /// traversal of the tree.
    pub fn iter<'a>(&'a self) -> (iter: Iter<'a, A>)
        ensures
            iter.remaining() == self.in_order(),
            iter.parent_is_none(),
            iter.steps() == self.walk_len(),
    {
        Iter { state: IterState::Left, tree: self, parent: None }
    }
}

impl<A: Ord> BSTree<A> {
    /// The balance factor of the root: height of the right subtree minus
    /// height of the left subtree.
    pub fn balance(&self) -> (b: i16)
        requires
            self.spec_height() <= i16::MAX,
        ensures
            b == self.spec_balance(),
    {
        match self {
            BSTree::Node { value: _, left, right } => {
                let l = left.height();
                let r = right.height();
                (r as i16) - (l as i16)
            },
            BSTree::Nil => 0,
        }
    }
}

impl<A: Ord> BSTree<A> {
    /// The in-order traversal meets exactly the values of the set.
    pub proof fn lemma_in_order_values(self)
        ensures
            forall|x: A| self.in_order().contains(x) <==> self@.contains(x),
        decreases self,
    {
        match self {
            BSTree::Nil => {},
            BSTree::Node { value, left, right } => {
                left.lemma_in_order_values();
                right.lemma_in_order_values();
                let (l, r) = (left.in_order(), right.in_order());
                let s = self.in_order();
                assert(s == l.push(value) + r);
                assert forall|x: A| s.contains(x) implies self@.contains(x) by {
                    let i = choose|i: int| 0 <= i < s.len() && s[i] == x;
                    if i < l.len() {
                        assert(l[i] == x);
                        assert(l.contains(x));
                    } else if i > l.len() {
                        assert(r[i - l.len() - 1] == x);
                        assert(r.contains(x));
                    }
                }
                assert forall|x: A| self@.contains(x) implies s.contains(x) by {
                    if x == value {
                        assert(s[l.len() as int] == x);
                    } else if left.as_set().contains(x) {
                        assert(l.contains(x));
                        let i = choose|i: int| 0 <= i < l.len() && l[i] == x;
                        assert(s[i] == x);
                    } else {
                        assert(r.contains(x));
                        let i = choose|i: int| 0 <= i < r.len() && r[i] == x;
                        assert(s[l.len() + 1 + i] == x);
                    }
                }
            },
        }
    }

    /// In an ordered tree the in-order traversal, which is what `iter`
    /// gives, meets the values in strictly ascending order.
    pub proof fn lemma_in_order_ascending(self)
        requires
            total_order::<A>(),
            self.ordered(),
        ensures
            forall|i: int, j: int|
                0 <= i < j < self.in_order().len() ==> lt(
                    #[trigger] self.in_order()[i],
                    #[trigger] self.in_order()[j],
                ),
        decreases self,
    {
        match self {
            BSTree::Nil => {},
            BSTree::Node { value, left, right } => {
                left.lemma_in_order_ascending();
                right.lemma_in_order_ascending();
                left.lemma_in_order_values();
                right.lemma_in_order_values();
                let (l, r) = (left.in_order(), right.in_order());
                let s = self.in_order();
                assert(s == l.push(value) + r);
                assert forall|i: int, j: int| 0 <= i < j < s.len() implies lt(
                    #[trigger] s[i],
                    #[trigger] s[j],
                ) by {
                    let split = l.len() as int;
                    if i < split {
                        assert(l.contains(l[i]));
                        assert(s[i] == l[i]);
                    }
                    if j > split {
                        assert(r.contains(r[j - split - 1]));
                        assert(s[j] == r[j - split - 1]);
                    }
                    if i == split {
                        assert(s[i] == value);
                    }
                    if j == split {
                        assert(s[j] == value);
                    }
                    if i > split {
                        assert(s[i] == r[i - split - 1]);
                    }
                    if j < split {
                        assert(s[j] == l[j]);
                    }
                    if i < split && j > split {
                        lemma_lt_transitive(s[i], value, s[j]);
                    }
                }
            },
        }
    }
}

impl<A> BSTree<A> {
    /// How many steps a traversal of the tree takes.
    pub closed spec fn walk_len(self) -> nat
        decreases self,
    {
        match self {
            BSTree::Nil => 1,
            BSTree::Node { value, left, right } => 3 + left.walk_len() + right.walk_len(),
        }
    }
}

/// What a frame of the traversal has left to do in its tree: all of it, the
/// root and the right subtree, or nothing.
#[derive(Debug)]
enum IterState {
    Left,
    Node,
    Right,
}

/// The state of an in-order traversal: a stack of frames, one for each
/// subtree that has been entered and not left.
#[derive(Debug)]
pub struct Iter<'a, A> {
    state: IterState,
    tree: &'a BSTree<A>,
    parent: Option<Box<Iter<'a, A>>>,
}

impl<'a, A> Iter<'a, A> {
    /// The values that the top frame has yet to give.
    spec fn here(self) -> Seq<A> {
        match (*self.tree, self.state) {
            (BSTree::Node { value, left, right }, IterState::Left) => self.tree.in_order(),
            (BSTree::Node { value, left, right }, IterState::Node) => seq![value]
                + right.in_order(),
            _ => Seq::empty(),
        }
    }

    /// The values that the traversal has yet to give, in the order in which
    /// `next` gives them.
    pub closed spec fn remaining(self) -> Seq<A>
        decreases self,
    {
        self.here() + match self.parent {
            Some(p) => p.remaining(),
            None => Seq::empty(),
        }
    }

    /// This is the bottom frame of the traversal.
    pub closed spec fn parent_is_none(self) -> bool {
        self.parent is None
    }

    /// The steps that the top frame has yet to take.
    spec fn here_steps(self) -> nat {
        match (*self.tree, self.state) {
            (BSTree::Node { value, left, right }, IterState::Left) => self.tree.walk_len(),
            (BSTree::Node { value, left, right }, IterState::Node) => 2 + right.walk_len(),
            _ => 1,
        }
    }

    /// The steps that the traversal has yet to take.
    pub closed spec fn steps(self) -> nat
        decreases self,
    {
        self.here_steps() + match self.parent {
            Some(p) => p.steps(),
            None => 0,
        }
    }
}

impl<'a, A: Ord> Iter<'a, A> {
    /// Leaves the top frame, which has nothing left to give, and goes on in
    /// the frame below it.
    fn continue_to_parent(&mut self) -> (item: Option<&'a A>)
        requires
            old(self).here().len() == 0,
            old(self).here_steps() == 1,
        ensures
            old(self).remaining().len() == 0 ==> item is None && final(self).remaining().len()
                == 0,
            old(self).remaining().len() > 0 ==> item == Some(&old(self).remaining()[0])
                && final(self).remaining() == old(self).remaining().drop_first(),
        decreases old(self).steps(), 0nat,
    {
        match self.parent.take() {
            Some(mut p) => {
                core::mem::swap(self, &mut *p);
                self.next()
            },
            None => None,
        }
    }

    /// The next value of the traversal, or `None` when every value has been
    /// given.
    pub fn next(&mut self) -> (item: Option<&'a A>)
        ensures
            old(self).remaining().len() == 0 ==> item is None && final(self).remaining().len()
                == 0,
            old(self).remaining().len() > 0 ==> item == Some(&old(self).remaining()[0])
                && final(self).remaining() == old(self).remaining().drop_first(),
        decreases old(self).steps(), 1nat,
    {
        match self.tree {
            BSTree::Node { value, left, right } => match self.state {
                IterState::Left => {
                    self.state = IterState::Node;
                    let mut new_parent = left.iter();
                    core::mem::swap(self, &mut new_parent);
                    self.parent = Some(Box::new(new_parent));
                    proof {
                        let below = *self.parent.unwrap();
                        assert(below.here() == seq![*value] + right.in_order());
                        assert(below.remaining() == below.here() + (old(self).remaining().skip(
                            old(self).here().len() as int,
                        ))) by {
                            assert(old(self).remaining().skip(old(self).here().len() as int)
                                =~= match old(self).parent {
                                Some(p) => p.remaining(),
                                None => Seq::empty(),
                            });
                        }
                        assert(self.here() == left.in_order());
                        assert(self.remaining() =~= old(self).remaining());
                        assert(below.steps() + 1 + left.walk_len() == old(self).steps());
                        assert(self.steps() == left.walk_len() + below.steps());
                    }
                    self.next()
                },
                IterState::Node => {
                    self.state = IterState::Right;
                    let mut new_parent = right.iter();
                    core::mem::swap(self, &mut new_parent);
                    self.parent = Some(Box::new(new_parent));
                    proof {
                        let below = *self.parent.unwrap();
                        assert(below.here() == Seq::<A>::empty());
                        assert(below.remaining() =~= old(self).remaining().skip(
                            old(self).here().len() as int,
                        )) by {
                            assert(old(self).remaining().skip(old(self).here().len() as int)
                                =~= match old(self).parent {
                                Some(p) => p.remaining(),
                                None => Seq::empty(),
                            });
                        }
                        assert(self.here() == right.in_order());
                        assert(old(self).here() == seq![*value] + right.in_order());
                        assert(self.remaining() =~= old(self).remaining().drop_first());
                    }
                    Some(value)
                },
                IterState::Right => self.continue_to_parent(),
            },
            BSTree::Nil => self.continue_to_parent(),
        }
    }
}

} // verus!
