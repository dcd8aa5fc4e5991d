//! A self-balancing ordered map.
//!
//! A tree is read as the `Map` of its entries (`tree@`).  Three predicates
//! describe its shape: `ordered` (keys of the left subtree sort before the
//! node's key, keys of the right subtree after it), `balanced` (the heights of
//! the two subtrees of every node differ by at most one) and
//! `heights_cached` (every node stores the height of its subtree).  `wf` is
//! their conjunction, and every mutation keeps it.
//!
//! Which tree a mutation gives is said by `inserted` and `removed`, in terms
//! of `rebalanced` and the two rotations; that this tree has the invariant
//! and holds the right entries is what `insert` and `remove` prove of it.
use crate::order::{
    lemma_lt_asymmetric, lemma_lt_irreflexive, lemma_lt_transitive, lemma_trichotomy, lt,
    total_order,
};
use core::cmp::Ordering;
use vstd::arithmetic::power2::{lemma2_to64, lemma_pow2_unfold, pow2};
use vstd::prelude::*;

verus! {

/// An AVL tree: the whole map, and each of its subtrees.
#[derive(Debug)]
pub enum AVLTree<K, V> {
    Node(Node<K, V>),
    Nil,
}

/// One key with its value, two subtrees, and the height of the subtree that
/// starts here.
#[derive(Debug)]
pub struct Node<K, V> {
    entry: Entry<K, V>,
    left: Box<AVLTree<K, V>>,
    right: Box<AVLTree<K, V>>,
    height_m: usize,
}

/// A key and the value stored under it.
#[derive(Debug)]
pub struct Entry<K, V> {
    key: K,
    value: V,
}

impl<K, V> Entry<K, V> {
    /// The key of this entry.
    pub closed spec fn key(self) -> K {
        self.key
    }

    /// The value of this entry.
    pub closed spec fn value(self) -> V {
        self.value
    }

    /// The entry of `value` under `key`.
    pub fn new(key: K, value: V) -> (entry: Self)
        ensures
            entry.key() == key,
            entry.value() == value,
    {
        Entry { key, value }
    }
}

impl<K, V> Node<K, V> {
    /// The key stored in this node.
    pub closed spec fn key(self) -> K {
        self.entry.key
    }

    /// The value stored in this node.
    pub closed spec fn value(self) -> V {
        self.entry.value
    }

    /// The subtree of the smaller keys.
    pub closed spec fn left(self) -> AVLTree<K, V> {
        *self.left
    }

    /// The subtree of the larger keys.
    pub closed spec fn right(self) -> AVLTree<K, V> {
        *self.right
    }

    /// The height that this node has stored.
    pub closed spec fn cached_height(self) -> nat {
        self.height_m as nat
    }
}

impl<K, V> AVLTree<K, V> {
    /// The length of the longest path from here down to an empty subtree.
    pub open spec fn spec_height(self) -> nat
        decreases self,
    {
        match self {
            AVLTree::Nil => 0,
            AVLTree::Node(n) => {
                let l = n.left().spec_height();
                let r = n.right().spec_height();
                if l >= r {
                    l + 1
                } else {
                    r + 1
                }
            },
        }
    }

    /// The height that the root has stored; 0 for the empty tree.
    pub open spec fn cached_height(self) -> nat {
        match self {
            AVLTree::Nil => 0,
            AVLTree::Node(n) => n.cached_height(),
        }
    }

    /// Height of the right subtree minus height of the left subtree; 0 for
    /// the empty tree.
    pub open spec fn spec_balance(self) -> int {
        match self {
            AVLTree::Nil => 0,
            AVLTree::Node(n) => n.right().spec_height() - n.left().spec_height(),
        }
    }

    /// The entries of the tree, as a map from key to value.
    pub open spec fn as_map(self) -> Map<K, V>
        decreases self,
    {
        match self {
            AVLTree::Nil => Map::empty(),
            AVLTree::Node(n) => n.right().as_map().union_prefer_right(n.left().as_map()).insert(
                n.key(),
                n.value(),
            ),
        }
    }

    /// The keys of the tree in the order of an in-order traversal.
    pub open spec fn in_order(self) -> Seq<K>
        decreases self,
    {
        match self {
            AVLTree::Nil => Seq::empty(),
            AVLTree::Node(n) => n.left().in_order().push(n.key()) + n.right().in_order(),
        }
    }

    /// At every node the heights of the two subtrees differ by at most one.
    pub open spec fn balanced(self) -> bool
        decreases self,
    {
        match self {
            AVLTree::Nil => true,
            AVLTree::Node(n) => {
                &&& n.left().balanced()
                &&& n.right().balanced()
                &&& -1 <= self.spec_balance() <= 1
            },
        }
    }

    /// Every node has stored one more than the larger height of its two
    /// subtrees.
    pub open spec fn heights_cached(self) -> bool
        decreases self,
    {
        match self {
            AVLTree::Nil => true,
            AVLTree::Node(n) => {
                &&& n.left().heights_cached()
                &&& n.right().heights_cached()
                &&& n.cached_height() == self.spec_height()
            },
        }
    }

    /// The empty map.
    pub fn new() -> (tree: Self)
        ensures
            tree == AVLTree::<K, V>::Nil,
            tree@ == Map::<K, V>::empty(),
            tree.balanced(),
            tree.heights_cached(),
            tree.spec_height() == 0,
    {
        AVLTree::Nil
    }

    /// Whether the tree is empty.
    fn is_nil(&self) -> (nil: bool)
        ensures
            nil == (*self == AVLTree::<K, V>::Nil),
    {
        match self {
            AVLTree::Node(_) => false,
            AVLTree::Nil => true,
        }
    }

    /// The stored height of the root, which for a tree with
    /// `heights_cached` is the height of the tree.
    pub fn height(&self) -> (h: usize)
        ensures
            h == self.cached_height(),
            self.heights_cached() ==> h == self.spec_height(),
    {
        match self {
            AVLTree::Node(node) => node.height_m,
            AVLTree::Nil => 0,
        }
    }
}

impl<K, V> Node<K, V> {
    /// The node of `key` and `value` over the subtrees `left` and `right`,
    /// with the height stored that the heights stored in the two subtrees
    /// give: one more than the larger of them.
    pub closed spec fn over(key: K, value: V, left: AVLTree<K, V>, right: AVLTree<K, V>) -> Self {
        Node {
            entry: Entry { key, value },
            left: Box::new(left),
            right: Box::new(right),
            height_m: (1 + vstd::math::max(
                left.cached_height() as int,
                right.cached_height() as int,
            )) as usize,
        }
    }

    /// This node with `value` in place of its value.
    pub closed spec fn with_value(self, value: V) -> Self {
        Node { entry: Entry { key: self.entry.key, value }, ..self }
    }

    /// This node with `left` in place of its left subtree, and the height
    /// that it has stored.
    pub closed spec fn with_left(self, left: AVLTree<K, V>) -> Self {
        Node { left: Box::new(left), ..self }
    }

    /// This node with `right` in place of its right subtree, and the height
    /// that it has stored.
    pub closed spec fn with_right(self, right: AVLTree<K, V>) -> Self {
        Node { right: Box::new(right), ..self }
    }

    /// What the node made by `over` holds: the key, the value and the
    /// subtrees that it was made of, and, where that can be stored, one more
    /// than the larger of their stored heights.
    pub proof fn lemma_over(key: K, value: V, left: AVLTree<K, V>, right: AVLTree<K, V>)
        ensures
            Self::over(key, value, left, right).key() == key,
            Self::over(key, value, left, right).value() == value,
            Self::over(key, value, left, right).left() == left,
            Self::over(key, value, left, right).right() == right,
            left.cached_height() < usize::MAX && right.cached_height() < usize::MAX ==> Self::over(
                key,
                value,
                left,
                right,
            ).cached_height() == 1 + vstd::math::max(
                left.cached_height() as int,
                right.cached_height() as int,
            ),
    {
    }

    /// Stores one more than the larger of the heights that the two children
    /// have stored.
    fn update_height(&mut self)
        requires
            old(self).left().cached_height() < usize::MAX,
            old(self).right().cached_height() < usize::MAX,
        ensures
            *final(self) == Self::over(
                old(self).key(),
                old(self).value(),
                old(self).left(),
                old(self).right(),
            ),
            final(self).key() == old(self).key(),
            final(self).value() == old(self).value(),
            final(self).left() == old(self).left(),
            final(self).right() == old(self).right(),
            final(self).cached_height() == 1 + vstd::math::max(
                old(self).left().cached_height() as int,
                old(self).right().cached_height() as int,
            ),
    {
        let l = self.left.height();
        let r = self.right.height();
        self.height_m = 1 + if l >= r {
            l
        } else {
            r
        };
    }

    /// Stored height of the right child minus stored height of the left.
    fn balance(&self) -> (b: isize)
        requires
            -isize::MAX <= self.right().cached_height() - self.left().cached_height() <= isize::MAX,
        ensures
            b == self.right().cached_height() - self.left().cached_height(),
    {
        let l = self.left.height();
        let r = self.right.height();
        if r >= l {
            (r - l) as isize
        } else {
            -((l - r) as isize)
        }
    }

    /// The subtree of the smaller keys.
    pub fn left_node(&self) -> (l: &AVLTree<K, V>)
        ensures
            *l == self.left(),
    {
        &*self.left
    }

    /// The subtree of the larger keys.
    pub fn right_node(&self) -> (r: &AVLTree<K, V>)
        ensures
            *r == self.right(),
    {
        &*self.right
    }
}

impl<K, V> Default for AVLTree<K, V> {
    fn default() -> (tree: Self)
        ensures
            tree == AVLTree::<K, V>::Nil,
    {
        AVLTree::Nil
    }
}

impl<K, V> AVLTree<K, V> {
    /// The node at the root of a tree that is not empty.
    pub open spec fn root(self) -> Node<K, V>
        recommends
            self is Node,
    {
        self->Node_0
    }

    /// Stored height of the right subtree minus stored height of the left
    /// subtree; 0 for the empty tree.
    pub open spec fn cached_balance(self) -> int {
        match self {
            AVLTree::Nil => 0,
            AVLTree::Node(n) => n.right().cached_height() - n.left().cached_height(),
        }
    }

    /// `other` is `self`, but for the height that its root has stored.
    pub open spec fn same_but_height(self, other: Self) -> bool {
        match self {
            AVLTree::Nil => other is Nil,
            AVLTree::Node(n) => {
                &&& other is Node
                &&& other.root().key() == n.key()
                &&& other.root().value() == n.value()
                &&& other.root().left() == n.left()
                &&& other.root().right() == n.right()
            },
        }
    }

    /// The tree with the height of its root stored anew: one more than the
    /// larger of the heights that its two subtrees have stored.
    pub open spec fn recounted(self) -> Self {
        match self {
            AVLTree::Nil => AVLTree::Nil,
            AVLTree::Node(n) => AVLTree::Node(Node::over(n.key(), n.value(), n.left(), n.right())),
        }
    }

    /// The tree after a right rotation: the left child is the root, its
    /// right subtree is the left subtree of the old root, and the old root
    /// is its right child.  The heights of the old root and of the new one
    /// are stored anew, in that order.  A tree without a left child stays as
    /// it is.
    pub open spec fn rotated_right(self) -> Self {
        if self is Node && self.root().left() is Node {
            let parent = self.root();
            let child = parent.left().root();
            AVLTree::Node(
                Node::over(
                    child.key(),
                    child.value(),
                    child.left(),
                    AVLTree::Node(
                        Node::over(parent.key(), parent.value(), child.right(), parent.right()),
                    ),
                ),
            )
        } else {
            self
        }
    }

    /// The tree after a left rotation, the mirror image of `rotated_right`.
    pub open spec fn rotated_left(self) -> Self {
        if self is Node && self.root().right() is Node {
            let parent = self.root();
            let child = parent.right().root();
            AVLTree::Node(
                Node::over(
                    child.key(),
                    child.value(),
                    AVLTree::Node(
                        Node::over(parent.key(), parent.value(), parent.left(), child.left()),
                    ),
                    child.right(),
                ),
            )
        } else {
            self
        }
    }

    /// The tree after rebalancing, by the heights that its nodes have
    /// stored.  A root that leans by two to the left is rotated to the
    /// right, after its left subtree has been rotated to the left where that
    /// subtree leans to the right; a root that leans by two to the right is
    /// rotated to the left, after its right subtree has been rotated to the
    /// right where that subtree leans to the left.  Any other tree stays as
    /// it is.
    pub open spec fn rebalanced(self) -> Self {
        if self.cached_balance() == -2 {
            if self.root().left().cached_balance() <= 0 {
                self.rotated_right()
            } else {
                AVLTree::Node(
                    self.root().with_left(self.root().left().rotated_left()),
                ).rotated_right()
            }
        } else if self.cached_balance() == 2 {
            if self.root().right().cached_balance() >= 0 {
                self.rotated_left()
            } else {
                AVLTree::Node(
                    self.root().with_right(self.root().right().rotated_right()),
                ).rotated_left()
            }
        } else {
            self
        }
    }

    /// The two trees have the same shape and, node by node, the same key and
    /// the same stored height.  Only values may differ.
    pub open spec fn same_shape(self, other: Self) -> bool
        decreases self,
    {
        match self {
            AVLTree::Nil => other is Nil,
            AVLTree::Node(n) => {
                &&& other is Node
                &&& other.root().key() == n.key()
                &&& other.root().cached_height() == n.cached_height()
                &&& n.left().same_shape(other.root().left())
                &&& n.right().same_shape(other.root().right())
            },
        }
    }

    /// Two trees of the same shape have the same stored height at the root.
    pub proof fn lemma_same_shape_height(self, other: Self)
        requires
            self.same_shape(other),
        ensures
            self.cached_height() == other.cached_height(),
    {
    }

    /// Every tree has its own shape.
    pub proof fn lemma_same_shape_reflexive(self)
        ensures
            self.same_shape(self),
        decreases self,
    {
        match self {
            AVLTree::Nil => {},
            AVLTree::Node(n) => {
                n.left().lemma_same_shape_reflexive();
                n.right().lemma_same_shape_reflexive();
            },
        }
    }

    /// The balance factor of the root, from the heights that its two
    /// children have stored.
    pub fn balance_factor(&self) -> (b: isize)
        requires
            -isize::MAX <= self.cached_balance() <= isize::MAX,
        ensures
            b == self.cached_balance(),
            self.heights_cached() ==> b == self.spec_balance(),
    {
        proof {
            if self.heights_cached() && *self is Node {
                self.root().left().lemma_cached_is_height();
                self.root().right().lemma_cached_is_height();
            }
        }
        match self {
            AVLTree::Node(node) => node.balance(),
            AVLTree::Nil => 0,
        }
    }

    /// In a tree with `heights_cached` the root has stored the height of
    /// the tree.
    pub proof fn lemma_cached_is_height(self)
        ensures
            self.heights_cached() ==> self.cached_height() == self.spec_height(),
    {
    }

    /// Recomputes the stored height of the root from the heights that its
    /// two children have stored.  Nothing else changes.
    pub fn update_height(&mut self)
        requires
            *old(self) is Node ==> old(self).root().left().cached_height() < usize::MAX && old(
                self,
            ).root().right().cached_height() < usize::MAX,
        ensures
            *final(self) == old(self).recounted(),
            old(self).same_but_height(*final(self)),
            *final(self) is Node ==> final(self).cached_height() == 1 + vstd::math::max(
                old(self).root().left().cached_height() as int,
                old(self).root().right().cached_height() as int,
            ),
            *old(self) is Node && old(self).root().left().heights_cached() && old(
                self,
            ).root().right().heights_cached() ==> final(self).heights_cached(),
    {
        proof {
            if *self is Node {
                self.root().left().lemma_cached_is_height();
                self.root().right().lemma_cached_is_height();
            }
        }
        match self {
            AVLTree::Node(node) => node.update_height(),
            AVLTree::Nil => {},
        }
    }
}

impl<K, V> View for AVLTree<K, V> {
    type V = Map<K, V>;

    open spec fn view(&self) -> Map<K, V> {
        self.as_map()
    }
}

impl<K: Ord, V> AVLTree<K, V> {
    /// At every node the keys of the left subtree sort before the node's key
    /// and the keys of the right subtree after it.
    pub open spec fn ordered(self) -> bool
        decreases self,
    {
        match self {
            AVLTree::Nil => true,
            AVLTree::Node(n) => {
                &&& n.left().ordered()
                &&& n.right().ordered()
                &&& forall|k: K| #[trigger] n.left().as_map().contains_key(k) ==> lt(k, n.key())
                &&& forall|k: K| #[trigger] n.right().as_map().contains_key(k) ==> lt(n.key(), k)
            },
        }
    }

    /// The invariant of the map: ordered, balanced, and with every height
    /// stored.
    pub open spec fn wf(self) -> bool {
        &&& self.ordered()
        &&& self.balanced()
        &&& self.heights_cached()
    }

    /// The tree with `v` under `k`.  The empty tree becomes a single node of
    /// height 1.  Where `k` sorts before or after the key at the root, it
    /// goes into the left or the right subtree, and the root has its height
    /// stored anew and is rebalanced.  Where `k` is the key at the root, the
    /// root gets the value, and nothing else changes.
    pub open spec fn inserted(self, k: K, v: V) -> Self
        decreases self,
    {
        match self {
            AVLTree::Nil => AVLTree::Node(Node::over(k, v, AVLTree::Nil, AVLTree::Nil)),
            AVLTree::Node(n) => if lt(k, n.key()) {
                AVLTree::Node(
                    Node::over(n.key(), n.value(), n.left().inserted(k, v), n.right()),
                ).rebalanced()
            } else if lt(n.key(), k) {
                AVLTree::Node(
                    Node::over(n.key(), n.value(), n.left(), n.right().inserted(k, v)),
                ).rebalanced()
            } else {
                AVLTree::Node(n.with_value(v))
            },
        }
    }

    /// The entry that an in-order traversal meets first.
    pub open spec fn least_entry(self) -> (K, V)
        recommends
            self is Node,
        decreases self,
    {
        match self {
            AVLTree::Nil => arbitrary(),
            AVLTree::Node(n) => if n.left() is Nil {
                (n.key(), n.value())
            } else {
                n.left().least_entry()
            },
        }
    }

    /// The tree without its least entry: the node of that entry is replaced
    /// by its right subtree, and every node above it has its height stored
    /// anew and is rebalanced.
    pub open spec fn without_least(self) -> Self
        decreases self,
    {
        match self {
            AVLTree::Nil => AVLTree::Nil,
            AVLTree::Node(n) => if n.left() is Nil {
                n.right()
            } else {
                AVLTree::Node(
                    Node::over(n.key(), n.value(), n.left().without_least(), n.right()),
                ).rebalanced()
            },
        }
    }

    /// The tree without the entry at its root.  Where the root has a right
    /// subtree, it gets the least entry of that subtree, which leaves the
    /// subtree; where it has none, its left subtree takes its place.  Either
    /// way the new root has its height stored anew and is rebalanced.
    pub open spec fn without_root(self) -> Self {
        match self {
            AVLTree::Nil => AVLTree::Nil,
            AVLTree::Node(n) => if n.right() is Node {
                let next = n.right().least_entry();
                AVLTree::Node(
                    Node::over(next.0, next.1, n.left(), n.right().without_least()),
                ).rebalanced()
            } else {
                n.left().recounted().rebalanced()
            },
        }
    }

    /// The tree without `k`.  Where `k` sorts before or after the key at the
    /// root, it is taken out of the left or the right subtree, and the root
    /// has its height stored anew and is rebalanced.  Where `k` is the key at
    /// the root, the entry at the root is taken out.
    pub open spec fn removed(self, k: K) -> Self
        decreases self,
    {
        match self {
            AVLTree::Nil => AVLTree::Nil,
            AVLTree::Node(n) => if lt(k, n.key()) {
                AVLTree::Node(
                    Node::over(n.key(), n.value(), n.left().removed(k), n.right()),
                ).rebalanced()
            } else if lt(n.key(), k) {
                AVLTree::Node(
                    Node::over(n.key(), n.value(), n.left(), n.right().removed(k)),
                ).rebalanced()
            } else {
                self.without_root()
            },
        }
    }

    /// The value under `k`, if the map holds the key: the search goes left
    /// where `k` sorts before the key of a node, right where it sorts after.
    pub fn get(&self, k: &K) -> (found: Option<&V>)
        requires
            total_order::<K>(),
            self.ordered(),
        ensures
            found == (if self@.contains_key(*k) {
                Some(&self@[*k])
            } else {
                None
            }),
        decreases self,
    {
        match self {
            AVLTree::Node(node) => {
                proof {
                    lemma_trichotomy(*k, node.entry.key);
                    if lt(*k, node.entry.key) && node.right().as_map().contains_key(*k) {
                        lemma_lt_asymmetric(*k, node.entry.key);
                    }
                    if lt(node.entry.key, *k) && node.left().as_map().contains_key(*k) {
                        lemma_lt_asymmetric(*k, node.entry.key);
                    }
                    reveal(total_order);
                }
                match k.cmp(&node.entry.key) {
                    Ordering::Equal => Some(&node.entry.value),
                    Ordering::Less => node.left.get(k),
                    Ordering::Greater => node.right.get(k),
                }
            },
            AVLTree::Nil => None,
        }
    }

    /// `after` is `self` rotated to the right: the left child of `self` is
    /// the root of `after`, the right subtree of that child is the left
    /// subtree of the old root, and the old root is the right child of the
    /// new one.  Read from `after` to `self`, this is the left rotation.
    /// Stored heights are not compared.
    pub open spec fn right_rotation_is(self, after: Self) -> bool {
        &&& self is Node
        &&& self.root().left() is Node
        &&& after is Node
        &&& after.root().right() is Node
        &&& after.root().key() == self.root().left().root().key()
        &&& after.root().value() == self.root().left().root().value()
        &&& after.root().left() == self.root().left().root().left()
        &&& after.root().right().root().key() == self.root().key()
        &&& after.root().right().root().value() == self.root().value()
        &&& after.root().right().root().left() == self.root().left().root().right()
        &&& after.root().right().root().right() == self.root().right()
    }

    /// A rotation keeps the entries, their in-order sequence, and the
    /// ordering of the tree.
    pub proof fn lemma_rotation(before: Self, after: Self)
        requires
            total_order::<K>(),
            before.right_rotation_is(after),
            before.ordered() || after.ordered(),
        ensures
            before.ordered(),
            after.ordered(),
            before.as_map() == after.as_map(),
            before.in_order() == after.in_order(),
    {
        let p = before.root();
        let c = p.left().root();
        let (a, g, r) = (c.left(), c.right(), p.right());
        assert(before.ordered() ==> p.left().ordered());
        assert(after.ordered() ==> after.root().right().ordered());
        assert(lt(c.key(), p.key())) by {
            if before.ordered() {
                assert(p.left().as_map().contains_key(c.key()));
            } else {
                assert(after.root().right().as_map().contains_key(p.key()));
            }
        }
        lemma_lt_asymmetric(c.key(), p.key());
        assert forall|k: K| #[trigger] a.as_map().contains_key(k) implies lt(k, p.key()) by {
            if before.ordered() {
                assert(p.left().as_map().contains_key(k));
            } else {
                lemma_lt_transitive(k, c.key(), p.key());
            }
        }
        assert forall|k: K| #[trigger] r.as_map().contains_key(k) implies lt(c.key(), k) by {
            if before.ordered() {
                lemma_lt_transitive(c.key(), p.key(), k);
            } else {
                assert(after.root().right().as_map().contains_key(k));
            }
        }
        assert forall|k: K| #[trigger] g.as_map().contains_key(k) implies lt(c.key(), k) && lt(
            k,
            p.key(),
        ) by {
            if before.ordered() {
                assert(p.left().as_map().contains_key(k));
            } else {
                assert(after.root().right().as_map().contains_key(k));
            }
        }
        assert(!a.as_map().contains_key(p.key())) by {
            if a.as_map().contains_key(p.key()) {
                lemma_lt_irreflexive(p.key());
            }
        }
        assert(p.left().ordered());
        assert(after.root().right().ordered());
        let (ql, qr) = (p.left(), after.root().right());
        assert(ql.as_map() == g.as_map().union_prefer_right(a.as_map()).insert(c.key(), c.value()));
        assert(qr.as_map() == r.as_map().union_prefer_right(g.as_map()).insert(p.key(), p.value()));
        assert(before.as_map() =~= after.as_map());
        assert(ql.in_order() == a.in_order().push(c.key()) + g.in_order());
        assert(qr.in_order() == g.in_order().push(p.key()) + r.in_order());
        assert(before.in_order() =~= after.in_order());
    }

    /// Right rotation: the left child becomes the root, its right subtree
    /// becomes the left subtree of the old root, and the old root becomes
    /// its right child.  Entries and in-order sequence stay as they are.
    fn rotate_right(&mut self)
        requires
            total_order::<K>(),
            *old(self) is Node,
            old(self).root().left() is Node,
            old(self).ordered(),
            old(self).heights_cached(),
            old(self).root().right().spec_height() + 2 <= usize::MAX,
        ensures
            *final(self) == old(self).rotated_right(),
            old(self).right_rotation_is(*final(self)),
            final(self).heights_cached(),
            final(self).ordered(),
            final(self)@ == old(self)@,
            final(self).in_order() == old(self).in_order(),
    {
        let ghost before = *self;
        proof {
            let p = self.root();
            let c = p.left().root();
            assert(p.left().heights_cached());
            p.left().lemma_cached_is_height();
            p.right().lemma_cached_is_height();
            c.left().lemma_cached_is_height();
            c.right().lemma_cached_is_height();
        }
        let mut temp = AVLTree::Nil;
        match self {
            AVLTree::Node(parent) => {
                match &mut *parent.left {
                    AVLTree::Node(child) => {
                        core::mem::swap(&mut temp, &mut *child.right);
                    },
                    AVLTree::Nil => {},
                }
                core::mem::swap(&mut temp, &mut *parent.left);
                parent.update_height();
            },
            AVLTree::Nil => {},
        }
        core::mem::swap(&mut temp, self);
        match self {
            AVLTree::Node(child) => {
                core::mem::swap(&mut temp, &mut *child.right);
                child.update_height();
            },
            AVLTree::Nil => {},
        }
        proof {
            assert(self.root().right().heights_cached());
            Self::lemma_rotation(before, *self);
        }
    }

    /// Left rotation, the mirror image of `rotate_right`: the right child
    /// becomes the root, its left subtree becomes the right subtree of the
    /// old root, and the old root becomes its left child.
    fn rotate_left(&mut self)
        requires
            total_order::<K>(),
            *old(self) is Node,
            old(self).root().right() is Node,
            old(self).ordered(),
            old(self).heights_cached(),
            old(self).root().left().spec_height() + 2 <= usize::MAX,
        ensures
            *final(self) == old(self).rotated_left(),
            final(self).right_rotation_is(*old(self)),
            final(self).heights_cached(),
            final(self).ordered(),
            final(self)@ == old(self)@,
            final(self).in_order() == old(self).in_order(),
    {
        let ghost before = *self;
        proof {
            let p = self.root();
            let c = p.right().root();
            assert(p.right().heights_cached());
            p.left().lemma_cached_is_height();
            p.right().lemma_cached_is_height();
            c.left().lemma_cached_is_height();
            c.right().lemma_cached_is_height();
        }
        let mut temp = AVLTree::Nil;
        match self {
            AVLTree::Node(parent) => {
                match &mut *parent.right {
                    AVLTree::Node(child) => {
                        core::mem::swap(&mut temp, &mut *child.left);
                    },
                    AVLTree::Nil => {},
                }
                core::mem::swap(&mut temp, &mut *parent.right);
                parent.update_height();
            },
            AVLTree::Nil => {},
        }
        core::mem::swap(&mut temp, self);
        match self {
            AVLTree::Node(child) => {
                core::mem::swap(&mut temp, &mut *child.left);
                child.update_height();
            },
            AVLTree::Nil => {},
        }
        proof {
            assert(self.root().left().heights_cached());
            Self::lemma_rotation(*self, before);
        }
    }

    /// Restores the balance of a tree whose two subtrees are balanced and
    /// whose root leans by at most two: one rotation where the taller child
    /// leans the same way or not at all, two where it leans the other way.
    /// A tree that is balanced already is left as it is.
    fn rebalance(&mut self)
        requires
            total_order::<K>(),
            old(self).ordered(),
            old(self).heights_cached(),
            *old(self) is Node ==> old(self).root().left().balanced() && old(
                self,
            ).root().right().balanced(),
            -2 <= old(self).spec_balance() <= 2,
        ensures
            final(self).wf(),
            final(self)@ == old(self)@,
            final(self).in_order() == old(self).in_order(),
            *final(self) == old(self).rebalanced(),
            -1 <= old(self).spec_balance() <= 1 ==> *final(self) == *old(self),
            final(self).spec_height() == old(self).spec_height() || final(self).spec_height() + 1
                == old(self).spec_height(),
            *old(self) is Node ==> *final(self) is Node,
    {
        let ghost before = *self;
        match self {
            AVLTree::Node(node) => {
                proof {
                    Self::lemma_unfold(node.left());
                    Self::lemma_unfold(node.right());
                    assert(node.left().ordered());
                    assert(node.right().ordered());
                }
                let balance = node.balance();
                if balance == -2 {
                    if node.left.balance_factor() <= 0 {
                        self.rotate_right();
                    } else {
                        node.left.rotate_left();
                        proof {
                            Self::lemma_unfold(node.left());
                        }
                        proof {
                            assert(*self == AVLTree::Node(
                                before.root().with_left(before.root().left().rotated_left()),
                            ));
                        }
                        self.rotate_right();
                    }
                } else if balance == 2 {
                    if node.right.balance_factor() >= 0 {
                        self.rotate_left();
                    } else {
                        node.right.rotate_right();
                        proof {
                            Self::lemma_unfold(node.right());
                        }
                        proof {
                            assert(*self == AVLTree::Node(
                                before.root().with_right(before.root().right().rotated_right()),
                            ));
                        }
                        self.rotate_left();
                    }
                } else if -1 <= balance && balance <= 1 {
                } else {
                    vstd::pervasive::unreached()
                }
                proof {
                    Self::lemma_unfold(*self);
                }
            },
            AVLTree::Nil => {},
        }
    }

    /// After a change in one of the two subtrees: stores the height of the
    /// root anew, then rebalances the root.
    fn settle(&mut self)
        requires
            total_order::<K>(),
            old(self).ordered(),
            *old(self) is Node ==> {
                &&& old(self).root().left().balanced()
                &&& old(self).root().right().balanced()
                &&& old(self).root().left().heights_cached()
                &&& old(self).root().right().heights_cached()
                &&& old(self).root().left().spec_height() < usize::MAX
                &&& old(self).root().right().spec_height() < usize::MAX
            },
            -2 <= old(self).spec_balance() <= 2,
        ensures
            *final(self) == old(self).recounted().rebalanced(),
            final(self).wf(),
            final(self)@ == old(self)@,
            final(self).in_order() == old(self).in_order(),
            -1 <= old(self).spec_balance() <= 1 ==> *final(self) == old(self).recounted(),
            final(self).spec_height() == old(self).spec_height() || final(self).spec_height() + 1
                == old(self).spec_height(),
            *old(self) is Node ==> *final(self) is Node,
    {
        proof {
            Self::lemma_unfold(*self);
            if *self is Node {
                self.root().left().lemma_cached_is_height();
                self.root().right().lemma_cached_is_height();
            }
        }
        self.update_height();
        proof {
            Self::lemma_unfold(*self);
            assert(self.as_map() == old(self).as_map());
            assert(self.in_order() == old(self).in_order());
            assert(self.ordered());
        }
        self.rebalance();
    }

    /// What the definitions of height, balance and stored heights say of
    /// `t`, one step down.
    spec fn unfolded(t: Self) -> bool {
        match t {
            AVLTree::Nil => t.spec_height() == 0 && t.balanced() && t.heights_cached(),
            AVLTree::Node(n) => {
                &&& t.spec_height() == 1 + vstd::math::max(
                    n.left().spec_height() as int,
                    n.right().spec_height() as int,
                )
                &&& t.balanced() == (n.left().balanced() && n.right().balanced() && -1
                    <= t.spec_balance() <= 1)
                &&& t.heights_cached() == (n.left().heights_cached() && n.right().heights_cached()
                    && t.cached_height() == t.spec_height())
            },
        }
    }

    /// The definitions of height, balance and stored heights, written out
    /// for a tree and for its two subtrees.
    proof fn lemma_unfold(t: Self)
        ensures
            Self::unfolded(t),
            t is Node ==> Self::unfolded(t.root().left()) && Self::unfolded(t.root().right()),
    {
    }

    /// Stores `v` under `k`, and returns the value that `k` had before, if
    /// it had one.  A key that is already present keeps its node, so the
    /// shape of the tree does not change; a new key gets a new leaf, and
    /// every node on the way back up is rebalanced.
    pub fn insert(&mut self, k: K, v: V) -> (previous: Option<V>)
        requires
            total_order::<K>(),
            old(self).wf(),
            old(self).spec_height() < usize::MAX,
        ensures
            *final(self) == old(self).inserted(k, v),
            final(self).wf(),
            final(self)@ == old(self)@.insert(k, v),
            previous == (if old(self)@.contains_key(k) {
                Some(old(self)@[k])
            } else {
                None
            }),
            final(self).spec_height() == old(self).spec_height() || final(self).spec_height()
                == old(self).spec_height() + 1,
            old(self)@.contains_key(k) ==> old(self).same_shape(*final(self)),
            *final(self) is Node,
        decreases *old(self),
    {
        let ghost before = *self;
        match self {
            AVLTree::Node(node) => {
                proof {
                    node.left().lemma_same_shape_reflexive();
                    node.right().lemma_same_shape_reflexive();
                    lemma_trichotomy(k, node.entry.key);
                    if lt(k, node.entry.key) {
                        lemma_lt_asymmetric(k, node.entry.key);
                    }
                    if lt(node.entry.key, k) {
                        lemma_lt_asymmetric(node.entry.key, k);
                    }
                    Self::lemma_unfold(before);
                    reveal(total_order);
                }
                let previous = match k.cmp(&node.entry.key) {
                    Ordering::Less => node.left.insert(k, v),
                    Ordering::Greater => node.right.insert(k, v),
                    Ordering::Equal => {
                        let mut held = v;
                        core::mem::swap(&mut node.entry.value, &mut held);
                        proof {
                            assert(self.as_map() =~= before.as_map().insert(k, v));
                            Self::lemma_unfold(*self);
                        }
                        return Some(held);
                    },
                };
                let ghost grown = *self;
                let ghost (l0, r0) = (before.root().left(), before.root().right());
                let ghost (l1, r1) = (grown.root().left(), grown.root().right());
                proof {
                    let key = before.root().key();
                    assert(lt(k, key) ==> l1.as_map() == l0.as_map().insert(k, v) && r1 == r0
                        && !r0.as_map().contains_key(k));
                    assert(lt(key, k) ==> r1.as_map() == r0.as_map().insert(k, v) && l1 == l0
                        && !l0.as_map().contains_key(k));
                    assert(grown.as_map() =~= before.as_map().insert(k, v));
                    assert(grown.ordered());
                    Self::lemma_unfold(grown);
                    if before.as_map().contains_key(k) {
                        l0.lemma_same_shape_height(l1);
                        r0.lemma_same_shape_height(r1);
                        l1.lemma_cached_is_height();
                        r1.lemma_cached_is_height();
                        l0.lemma_cached_is_height();
                        r0.lemma_cached_is_height();
                    }
                }
                self.settle();
                proof {
                    Node::lemma_over(grown.root().key(), grown.root().value(), l1, r1);
                }
                previous
            },
            AVLTree::Nil => {
                *self = AVLTree::Node(
                    Node {
                        entry: Entry::new(k, v),
                        left: Box::new(AVLTree::Nil),
                        right: Box::new(AVLTree::Nil),
                        height_m: 1,
                    },
                );
                proof {
                    Self::lemma_unfold(*self);
                    assert(self.as_map() =~= before.as_map().insert(k, v));
                }
                None
            },
        }
    }

    /// Takes the entry with the smallest key out of a tree that is not
    /// empty.  The node that held it is replaced by its right subtree, and
    /// every node on the way back up is rebalanced.
    fn delete_promote_leftmost(&mut self) -> (least: Entry<K, V>)
        requires
            total_order::<K>(),
            old(self).wf(),
            *old(self) is Node,
        ensures
            *final(self) == old(self).without_least(),
            (least.key(), least.value()) == old(self).least_entry(),
            final(self).wf(),
            old(self)@.contains_key(least.key()),
            old(self)@[least.key()] == least.value(),
            forall|j: K| #[trigger] old(self)@.contains_key(j) ==> j == least.key() || lt(least.key(), j),
            final(self)@ == old(self)@.remove(least.key()),
            final(self).spec_height() == old(self).spec_height() || final(self).spec_height() + 1
                == old(self).spec_height(),
        decreases *old(self),
    {
        let ghost before = *self;
        proof {
            Self::lemma_unfold(before);
        }
        match self {
            AVLTree::Node(node) => {
                if node.left.is_nil() {
                    let mut detached = AVLTree::Nil;
                    core::mem::swap(&mut detached, &mut *node.right);
                    core::mem::swap(&mut detached, self);
                    match detached {
                        AVLTree::Node(node) => {
                            proof {
                                assert(before.root().left().as_map() == Map::<K, V>::empty());
                                assert(node.key() == before.root().key());
                                assert(*self == before.root().right());
                                assert forall|j: K| #[trigger]
                                    before.as_map().contains_key(j) implies j == node.key() || lt(
                                    node.key(),
                                    j,
                                ) by {
                                    assert(before.ordered());
                                    if j != node.key() {
                                        assert(before.root().right().as_map().contains_key(j));
                                    }
                                }
                                if self.as_map().contains_key(node.key()) {
                                    lemma_lt_irreflexive(node.key());
                                }
                                assert(self.as_map() =~= before.as_map().remove(node.key()));
                            }
                            node.entry
                        },
                        AVLTree::Nil => vstd::pervasive::unreached(),
                    }
                } else {
                    let least = node.left.delete_promote_leftmost();
                    proof {
                        let (l0, r0) = (before.root().left(), before.root().right());
                        let key = before.root().key();
                        assert(l0.as_map().contains_key(least.key()));
                        lemma_lt_asymmetric(least.key(), key);
                        assert forall|j: K| #[trigger]
                            before.as_map().contains_key(j) implies j == least.key() || lt(
                            least.key(),
                            j,
                        ) by {
                            if r0.as_map().contains_key(j) {
                                lemma_lt_transitive(least.key(), key, j);
                            }
                        }
                        if r0.as_map().contains_key(least.key()) {
                            lemma_lt_asymmetric(key, least.key());
                        }
                        Self::lemma_unfold(*self);
                        assert(self.as_map() =~= before.as_map().remove(least.key()));
                        assert(self.ordered());
                    }
                    self.settle();
                    least
                }
            },
            AVLTree::Nil => vstd::pervasive::unreached(),
        }
    }

    /// Takes `k` out of the map and returns the value that it had, if it
    /// had one.  A node with a right subtree gets the entry of its in-order
    /// successor, which is taken out of that subtree; a node without one is
    /// replaced by its left subtree.  Every node on the way back up is
    /// rebalanced.
    pub fn remove(&mut self, k: &K) -> (removed: Option<V>)
        requires
            total_order::<K>(),
            old(self).wf(),
        ensures
            *final(self) == old(self).removed(*k),
            final(self).wf(),
            final(self)@ == old(self)@.remove(*k),
            removed == (if old(self)@.contains_key(*k) {
                Some(old(self)@[*k])
            } else {
                None
            }),
            final(self).spec_height() == old(self).spec_height() || final(self).spec_height() + 1
                == old(self).spec_height(),
            !old(self)@.contains_key(*k) ==> final(self).spec_height() == old(self).spec_height(),
        decreases *old(self),
    {
        let ghost before = *self;
        match self {
            AVLTree::Node(node) => {
                proof {
                    lemma_trichotomy(*k, node.entry.key);
                    if lt(*k, node.entry.key) {
                        lemma_lt_asymmetric(*k, node.entry.key);
                    }
                    if lt(node.entry.key, *k) {
                        lemma_lt_asymmetric(node.entry.key, *k);
                    }
                    lemma_lt_irreflexive(node.entry.key);
                    Self::lemma_unfold(before);
                    reveal(total_order);
                }
                let removed = match k.cmp(&node.entry.key) {
                    Ordering::Less => node.left.remove(k),
                    Ordering::Greater => node.right.remove(k),
                    Ordering::Equal => {
                        return Some(self.remove_root());
                    },
                };
                proof {
                    Self::lemma_unfold(*self);
                    let (l0, r0) = (before.root().left(), before.root().right());
                    let (l1, r1) = (self.root().left(), self.root().right());
                    let key = before.root().key();
                    assert(lt(*k, key) ==> l1.as_map() == l0.as_map().remove(*k) && r1 == r0
                        && !r0.as_map().contains_key(*k));
                    assert(lt(key, *k) ==> r1.as_map() == r0.as_map().remove(*k) && l1 == l0
                        && !l0.as_map().contains_key(*k));
                    assert(self.as_map() =~= before.as_map().remove(*k));
                    assert(self.ordered());
                }
                self.settle();
                removed
            },
            AVLTree::Nil => {
                proof {
                    assert(self.as_map() =~= before.as_map().remove(*k));
                }
                None
            },
        }
    }

    /// Takes the entry at the root out of a tree that is not empty, and
    /// returns its value.  A root with a right subtree gets the entry of its
    /// in-order successor, which is taken out of that subtree; a root
    /// without one is replaced by its left subtree.
    fn remove_root(&mut self) -> (removed: V)
        requires
            total_order::<K>(),
            old(self).wf(),
            *old(self) is Node,
        ensures
            *final(self) == old(self).without_root(),
            final(self).wf(),
            final(self)@ == old(self)@.remove(old(self).root().key()),
            removed == old(self).root().value(),
            final(self).spec_height() == old(self).spec_height() || final(self).spec_height() + 1
                == old(self).spec_height(),
    {
        let ghost before = *self;
        let ghost key = before.root().key();
        let ghost (l0, r0) = (before.root().left(), before.root().right());
        proof {
            lemma_lt_irreflexive(key);
            Self::lemma_unfold(before);
            assert(!l0.as_map().contains_key(key));
            assert(!r0.as_map().contains_key(key));
        }
        match self {
            AVLTree::Node(node) => {
                if !node.right.is_nil() {
                    let mut successor = node.right.delete_promote_leftmost();
                    core::mem::swap(&mut node.entry, &mut successor);
                    proof {
                        let next = node.entry.key;
                        assert(r0.as_map().contains_key(next));
                        lemma_lt_asymmetric(key, next);
                        assert forall|j: K| #[trigger] l0.as_map().contains_key(j) implies lt(
                            j,
                            next,
                        ) by {
                            lemma_lt_transitive(j, key, next);
                        }
                        assert forall|j: K| #[trigger]
                            node.right().as_map().contains_key(j) implies lt(next, j) by {
                            assert(r0.as_map().contains_key(j));
                        }
                        if l0.as_map().contains_key(next) {
                            lemma_lt_asymmetric(next, key);
                        }
                        Self::lemma_unfold(*self);
                        assert(self.as_map() =~= before.as_map().remove(key));
                        assert(self.ordered());
                    }
                    self.settle();
                    successor.value
                } else {
                    let mut detached = AVLTree::Nil;
                    core::mem::swap(&mut detached, &mut *node.left);
                    core::mem::swap(&mut detached, self);
                    proof {
                        assert(r0.as_map() == Map::<K, V>::empty());
                        assert(*self == l0);
                        assert(self.as_map() =~= before.as_map().remove(key));
                        Self::lemma_unfold(*self);
                    }
                    self.settle();
                    match detached.take_value() {
                        Some(removed) => removed,
                        None => vstd::pervasive::unreached(),
                    }
                }
            },
            AVLTree::Nil => vstd::pervasive::unreached(),
        }
    }

    /// The smallest key: the key that an in-order traversal meets first.
    pub fn first(&self) -> (least: Option<&K>)
        ensures
            least is None <==> *self is Nil,
            least is Some ==> self.in_order().len() > 0 && *least.unwrap() == self.in_order().first(),
            least is Some && total_order::<K>() && self.ordered() ==> self@.contains_key(
                *least.unwrap(),
            ) && forall|j: K| #[trigger]
                self@.contains_key(j) ==> j == *least.unwrap() || lt(*least.unwrap(), j),
        decreases self,
    {
        match self {
            AVLTree::Node(node) => {
                let left = node.left_node();
                if left.is_nil() {
                    proof {
                        assert(left.as_map() == Map::<K, V>::empty());
                        assert(left.in_order() == Seq::<K>::empty());
                        if total_order::<K>() && self.ordered() {
                            assert forall|j: K| #[trigger] self@.contains_key(j) implies j
                                == node.key() || lt(node.key(), j) by {
                                if j != node.key() {
                                    assert(node.right().as_map().contains_key(j));
                                }
                            }
                        }
                    }
                    Some(&node.entry.key)
                } else {
                    let least = left.first();
                    proof {
                        if total_order::<K>() && self.ordered() {
                            let m = *least.unwrap();
                            assert(left.as_map().contains_key(m));
                            assert forall|j: K| #[trigger] self@.contains_key(j) implies j == m
                                || lt(m, j) by {
                                if j == node.key() {
                                } else if node.right().as_map().contains_key(j) {
                                    lemma_lt_transitive(m, node.key(), j);
                                } else {
                                    assert(left.as_map().contains_key(j));
                                }
                            }
                        }
                    }
                    least
                }
            },
            AVLTree::Nil => None,
        }
    }

    /// The largest key: the key that an in-order traversal meets last.
    pub fn last(&self) -> (greatest: Option<&K>)
        ensures
            greatest is None <==> *self is Nil,
            greatest is Some ==> self.in_order().len() > 0 && *greatest.unwrap()
                == self.in_order().last(),
            greatest is Some && total_order::<K>() && self.ordered() ==> self@.contains_key(
                *greatest.unwrap(),
            ) && forall|j: K| #[trigger]
                self@.contains_key(j) ==> j == *greatest.unwrap() || lt(j, *greatest.unwrap()),
        decreases self,
    {
        match self {
            AVLTree::Node(node) => {
                let right = node.right_node();
                if right.is_nil() {
                    proof {
                        assert(right.as_map() == Map::<K, V>::empty());
                        assert(right.in_order() == Seq::<K>::empty());
                        if total_order::<K>() && self.ordered() {
                            assert forall|j: K| #[trigger] self@.contains_key(j) implies j
                                == node.key() || lt(j, node.key()) by {
                                if j != node.key() {
                                    assert(node.left().as_map().contains_key(j));
                                }
                            }
                        }
                    }
                    Some(&node.entry.key)
                } else {
                    let greatest = right.last();
                    proof {
                        if total_order::<K>() && self.ordered() {
                            let m = *greatest.unwrap();
                            assert(right.as_map().contains_key(m));
                            assert forall|j: K| #[trigger] self@.contains_key(j) implies j == m
                                || lt(j, m) by {
                                if j == node.key() {
                                } else if node.left().as_map().contains_key(j) {
                                    lemma_lt_transitive(j, node.key(), m);
                                } else {
                                    assert(right.as_map().contains_key(j));
                                }
                            }
                        }
                    }
                    greatest
                }
            },
            AVLTree::Nil => None,
        }
    }

    /// `s` is `self` or a subtree of it, at any depth.
    pub open spec fn has_subtree(self, s: Self) -> bool
        decreases self,
    {
        self == s || match self {
            AVLTree::Nil => false,
            AVLTree::Node(n) => n.left().has_subtree(s) || n.right().has_subtree(s),
        }
    }

    /// What holds of a tree holds of each of its subtrees: in a balanced
    /// tree the two heights below every node differ by at most one; in a
    /// tree with its heights stored every node has stored one more than the
    /// larger of the heights stored in its children, which is its height;
    /// and every subtree of an ordered tree is ordered.
    pub proof fn lemma_invariants_at_every_node(self, s: Self)
        requires
            self.has_subtree(s),
        ensures
            self.balanced() ==> s.balanced() && -1 <= s.spec_balance() <= 1,
            self.heights_cached() ==> s.heights_cached() && s.cached_height() == s.spec_height(),
            self.heights_cached() && s is Node ==> s.cached_height() == 1 + vstd::math::max(
                s.root().left().cached_height() as int,
                s.root().right().cached_height() as int,
            ),
            self.ordered() ==> s.ordered(),
        decreases self,
    {
        if self == s {
            Self::lemma_unfold(s);
            if s is Node {
                s.root().left().lemma_cached_is_height();
                s.root().right().lemma_cached_is_height();
            }
        } else {
            match self {
                AVLTree::Nil => {},
                AVLTree::Node(n) => {
                    if n.left().has_subtree(s) {
                        n.left().lemma_invariants_at_every_node(s);
                    } else {
                        n.right().lemma_invariants_at_every_node(s);
                    }
                },
            }
        }
    }

    /// The in-order traversal meets exactly the keys of the map.
    pub proof fn lemma_in_order_keys(self)
        ensures
            forall|k: K| self.in_order().contains(k) <==> self@.contains_key(k),
        decreases self,
    {
        match self {
            AVLTree::Nil => {},
            AVLTree::Node(n) => {
                n.left().lemma_in_order_keys();
                n.right().lemma_in_order_keys();
                let (l, r) = (n.left().in_order(), n.right().in_order());
                let s = self.in_order();
                assert(s == l.push(n.key()) + r);
                assert forall|k: K| s.contains(k) implies self@.contains_key(k) by {
                    let i = choose|i: int| 0 <= i < s.len() && s[i] == k;
                    if i < l.len() {
                        assert(l[i] == k);
                        assert(l.contains(k));
                    } else if i > l.len() {
                        assert(r[i - l.len() - 1] == k);
                        assert(r.contains(k));
                    }
                }
                assert forall|k: K| self@.contains_key(k) implies s.contains(k) by {
                    if k == n.key() {
                        assert(s[l.len() as int] == k);
                    } else if n.left().as_map().contains_key(k) {
                        assert(l.contains(k));
                        let i = choose|i: int| 0 <= i < l.len() && l[i] == k;
                        assert(s[i] == k);
                    } else {
                        assert(r.contains(k));
                        let i = choose|i: int| 0 <= i < r.len() && r[i] == k;
                        assert(s[l.len() + 1 + i] == k);
                    }
                }
            },
        }
    }

    /// In an ordered tree the in-order traversal meets the keys in strictly
    /// ascending order.
    pub proof fn lemma_in_order_ascending(self)
        requires
            total_order::<K>(),
            self.ordered(),
        ensures
            forall|i: int, j: int|
                0 <= i < j < self.in_order().len() ==> lt(
                    #[trigger] self.in_order()[i],
                    #[trigger] self.in_order()[j],
                ),
        decreases self,
    {
        match self {
            AVLTree::Nil => {},
            AVLTree::Node(n) => {
                n.left().lemma_in_order_ascending();
                n.right().lemma_in_order_ascending();
                n.left().lemma_in_order_keys();
                n.right().lemma_in_order_keys();
                let (l, r) = (n.left().in_order(), n.right().in_order());
                let s = self.in_order();
                assert(s == l.push(n.key()) + r);
                assert forall|i: int, j: int| 0 <= i < j < s.len() implies lt(
                    #[trigger] s[i],
                    #[trigger] s[j],
                ) by {
                    let split = l.len() as int;
                    if i < split {
                        assert(l.contains(l[i]));
                        assert(s[i] == l[i]);
                    }
                    if j > split {
                        assert(r.contains(r[j - split - 1]));
                        assert(s[j] == r[j - split - 1]);
                    }
                    if i == split {
                        assert(s[i] == n.key());
                    }
                    if j == split {
                        assert(s[j] == n.key());
                    }
                    if i > split {
                        assert(s[i] == r[i - split - 1]);
                    }
                    if j < split {
                        assert(s[j] == l[j]);
                    }
                    if i < split && j > split {
                        lemma_lt_transitive(s[i], n.key(), s[j]);
                    }
                }
            },
        }
    }

    /// In an ordered tree no key appears more than once, and the map has as
    /// many entries as the tree has nodes.
    pub proof fn lemma_keys_unique(self)
        requires
            total_order::<K>(),
            self.ordered(),
        ensures
            self.in_order().no_duplicates(),
            self@.dom().finite(),
            self@.len() == self.in_order().len(),
    {
        let s = self.in_order();
        self.lemma_in_order_ascending();
        assert forall|i: int, j: int| 0 <= i < s.len() && 0 <= j < s.len() && i != j implies s[i]
            != s[j] by {
            if i < j {
                lemma_lt_asymmetric(s[i], s[j]);
            } else {
                lemma_lt_asymmetric(s[j], s[i]);
            }
        }
        self.lemma_in_order_keys();
        assert(s.to_set() =~= self@.dom());
        s.unique_seq_to_set();
        vstd::seq_lib::seq_to_set_is_finite(s);
    }

    /// Only the empty tree holds no entries.
    pub proof fn lemma_empty_iff_nil(self)
        ensures
            self@ == Map::<K, V>::empty() <==> self is Nil,
    {
        match self {
            AVLTree::Nil => {},
            AVLTree::Node(n) => {
                assert(self@.contains_key(n.key()));
            },
        }
    }

    /// The value at the root, given up together with the tree.
    fn take_value(self) -> (value: Option<V>)
        ensures
            value == (match self {
                AVLTree::Node(n) => Some(n.value()),
                AVLTree::Nil => None,
            }),
    {
        match self {
            AVLTree::Node(node) => Some(node.entry.value),
            AVLTree::Nil => None,
        }
    }
}

/// The least number of nodes that a balanced tree of height `h` can have.
pub open spec fn least_size(h: nat) -> nat
    decreases h,
{
    if h == 0 {
        0
    } else if h == 1 {
        1
    } else {
        1 + least_size((h - 1) as nat) + least_size((h - 2) as nat)
    }
}

/// A higher balanced tree cannot do with fewer nodes.
pub proof fn lemma_least_size_grows(h: nat)
    ensures
        least_size(h) <= least_size(h + 1),
    decreases h,
{
    if h >= 2 {
        lemma_least_size_grows((h - 1) as nat);
    }
}

/// The least number of nodes, and one more, doubles with every two levels:
/// a balanced tree of height `h` has at least `2^(h / 2) - 1` nodes.
pub proof fn lemma_least_size_doubles(h: nat)
    ensures
        pow2(h / 2) <= least_size(h) + 1,
    decreases h,
{
    lemma2_to64();
    if h >= 2 {
        lemma_least_size_doubles((h - 2) as nat);
        lemma_least_size_grows((h - 2) as nat);
        lemma_pow2_unfold(h / 2);
        assert((h - 2) / 2 == h / 2 - 1);
    }
}

impl<K, V> AVLTree<K, V> {
    /// The number of nodes, which is the number of keys.
    pub open spec fn size(self) -> nat
        decreases self,
    {
        match self {
            AVLTree::Nil => 0,
            AVLTree::Node(n) => 1 + n.left().size() + n.right().size(),
        }
    }

    /// The in-order traversal meets one key at each node.
    pub proof fn lemma_size_is_in_order_len(self)
        ensures
            self.size() == self.in_order().len(),
        decreases self,
    {
        match self {
            AVLTree::Nil => {},
            AVLTree::Node(n) => {
                n.left().lemma_size_is_in_order_len();
                n.right().lemma_size_is_in_order_len();
            },
        }
    }

    /// A balanced tree has at least the least number of nodes for its
    /// height.
    pub proof fn lemma_balanced_size(self)
        requires
            self.balanced(),
        ensures
            least_size(self.spec_height()) <= self.size(),
        decreases self,
    {
        match self {
            AVLTree::Nil => {},
            AVLTree::Node(n) => {
                n.left().lemma_balanced_size();
                n.right().lemma_balanced_size();
                let (l, r) = (n.left().spec_height(), n.right().spec_height());
                if l == r && l >= 1 {
                    lemma_least_size_grows((l - 1) as nat);
                }
            },
        }
    }

    /// The height of a balanced tree is logarithmic in the number of its
    /// keys: with `n` keys, `2^(height / 2) <= n + 1`.
    pub proof fn lemma_height_logarithmic(self)
        requires
            self.balanced(),
        ensures
            pow2(self.spec_height() / 2) <= self.in_order().len() + 1,
    {
        self.lemma_balanced_size();
        self.lemma_size_is_in_order_len();
        lemma_least_size_doubles(self.spec_height());
    }
}

/// One change to a map: what `insert` or `remove` does to the entries.
pub enum Change<K, V> {
    Insert(K, V),
    Remove(K),
}

impl<K, V> Change<K, V> {
    /// The key that the change is about.
    pub open spec fn key(self) -> K {
        match self {
            Change::Insert(k, _) => k,
            Change::Remove(k) => k,
        }
    }

    /// The entries after the change.
    pub open spec fn apply(self, m: Map<K, V>) -> Map<K, V> {
        match self {
            Change::Insert(k, v) => m.insert(k, v),
            Change::Remove(k) => m.remove(k),
        }
    }
}

/// The entries after a sequence of changes, made from first to last.
pub open spec fn apply_all<K, V>(m: Map<K, V>, changes: Seq<Change<K, V>>) -> Map<K, V>
    decreases changes.len(),
{
    if changes.len() == 0 {
        m
    } else {
        changes.last().apply(apply_all(m, changes.drop_last()))
    }
}

/// Inserting each pair of `pairs`, from first to last.
pub open spec fn insertions<K, V>(pairs: Seq<(K, V)>) -> Seq<Change<K, V>> {
    Seq::new(pairs.len(), |i: int| Change::Insert(pairs[i].0, pairs[i].1))
}

/// Removing each key of `keys`, from first to last.
pub open spec fn removals<K, V>(keys: Seq<K>) -> Seq<Change<K, V>> {
    Seq::new(keys.len(), |i: int| Change::Remove(keys[i]))
}

/// Round trip: a key that was inserted with a value, and that no later
/// change is about, is found with that value.
pub proof fn lemma_round_trip<K, V>(m: Map<K, V>, k: K, v: V, later: Seq<Change<K, V>>)
    requires
        forall|i: int| 0 <= i < later.len() ==> (#[trigger] later[i]).key() != k,
    ensures
        apply_all(m.insert(k, v), later).contains_key(k),
        apply_all(m.insert(k, v), later)[k] == v,
    decreases later.len(),
{
    if later.len() > 0 {
        let before = later.drop_last();
        assert forall|i: int| 0 <= i < before.len() implies (#[trigger] before[i]).key() != k by {
            assert(before[i] == later[i]);
        }
        lemma_round_trip(m, k, v, before);
        assert(later.last() == later[later.len() - 1]);
    }
}

/// Overwriting: a second insertion under the same key leaves one entry under
/// that key, with the second value, and the same set of keys.
pub proof fn lemma_overwrite<K, V>(m: Map<K, V>, k: K, first: V, second: V)
    ensures
        m.insert(k, first).insert(k, second) == m.insert(k, second),
        m.insert(k, first).insert(k, second)[k] == second,
        m.insert(k, first).insert(k, second).dom() == m.insert(k, first).dom(),
        m.insert(k, first).insert(k, second).len() == m.insert(k, first).len(),
{
    assert(m.insert(k, first).insert(k, second) =~= m.insert(k, second));
    assert(m.insert(k, first).insert(k, second).dom() =~= m.insert(k, first).dom());
}

/// Removal: the removed key is gone, and every other key is present as
/// before, with the value that it had.
pub proof fn lemma_removal<K, V>(m: Map<K, V>, k: K)
    ensures
        !m.remove(k).contains_key(k),
        forall|j: K|
            j != k ==> (#[trigger] m.remove(k).contains_key(j) <==> m.contains_key(j)),
        forall|j: K| j != k && m.contains_key(j) ==> #[trigger] m.remove(k)[j] == m[j],
{
}

/// Some pair of `pairs` has the key `k`.
pub open spec fn has_key<K, V>(pairs: Seq<(K, V)>, k: K) -> bool {
    exists|i: int| 0 <= i < pairs.len() && (#[trigger] pairs[i]).0 == k
}

/// The keys after a run of insertions are the keys before and the keys
/// inserted.
pub proof fn lemma_keys_after_insertions<K, V>(m: Map<K, V>, pairs: Seq<(K, V)>)
    ensures
        forall|k: K|
            #[trigger] apply_all(m, insertions(pairs)).contains_key(k) <==> m.contains_key(k)
                || has_key(pairs, k),
    decreases pairs.len(),
{
    if pairs.len() == 0 {
        assert(insertions::<K, V>(pairs).len() == 0);
    } else {
        let before = pairs.drop_last();
        lemma_keys_after_insertions(m, before);
        assert(insertions::<K, V>(pairs).drop_last() =~= insertions(before));
        let last = pairs.last();
        let filled = apply_all(m, insertions(pairs));
        assert(insertions::<K, V>(pairs).last() == Change::Insert(last.0, last.1));
        assert(filled == apply_all(m, insertions(before)).insert(last.0, last.1));
        assert forall|k: K| filled.contains_key(k) implies m.contains_key(k) || has_key(
            pairs,
            k,
        ) by {
            if k == last.0 {
                assert(pairs[pairs.len() - 1].0 == k);
            } else if has_key(before, k) {
                let i = choose|i: int| 0 <= i < before.len() && (#[trigger] before[i]).0 == k;
                assert(pairs[i] == before[i]);
            }
        }
        assert forall|k: K| m.contains_key(k) implies filled.contains_key(k) by {
            assert(apply_all(m, insertions(before)).contains_key(k));
        }
        assert forall|k: K| has_key(pairs, k) implies filled.contains_key(k) by {
            let i = choose|i: int| 0 <= i < pairs.len() && (#[trigger] pairs[i]).0 == k;
            if i < before.len() {
                assert(before[i] == pairs[i]);
                assert(has_key(before, k));
            }
        }
    }
}

/// The keys after a run of removals are the keys before without the keys
/// removed.
pub proof fn lemma_keys_after_removals<K, V>(m: Map<K, V>, keys: Seq<K>)
    ensures
        forall|k: K|
            #[trigger] apply_all(m, removals(keys)).contains_key(k) <==> m.contains_key(k)
                && !keys.contains(k),
    decreases keys.len(),
{
    if keys.len() == 0 {
        assert(removals::<K, V>(keys).len() == 0);
    } else {
        let before = keys.drop_last();
        lemma_keys_after_removals(m, before);
        assert(removals::<K, V>(keys).drop_last() =~= removals(before));
        let last = keys.last();
        assert(apply_all(m, removals(keys)) == apply_all(m, removals(before)).remove(last));
        assert forall|k: K|
            apply_all(m, removals(keys)).contains_key(k) <==> m.contains_key(k) && !keys.contains(
                k,
            ) by {
            if k == last {
                assert(keys[keys.len() - 1] == k);
            }
            if before.contains(k) {
                let i = choose|i: int| 0 <= i < before.len() && before[i] == k;
                assert(keys[i] == k);
            }
            if keys.contains(k) {
                let i = choose|i: int| 0 <= i < keys.len() && keys[i] == k;
                if i < before.len() {
                    assert(before[i] == k);
                }
            }
        }
    }
}

/// Size conservation: after distinct keys were inserted into the empty map
/// and each of them was removed again, in whatever order, no entry is left.
/// By `lemma_empty_iff_nil` the tree is then `Nil`, on which `first` and
/// `last` return `None`.
pub proof fn lemma_remove_all_inserted<K, V>(pairs: Seq<(K, V)>, order: Seq<K>)
    requires
        forall|i: int, j: int|
            0 <= i < j < pairs.len() ==> (#[trigger] pairs[i]).0 != (#[trigger] pairs[j]).0,
        forall|i: int| 0 <= i < pairs.len() ==> order.contains((#[trigger] pairs[i]).0),
    ensures
        apply_all(apply_all(Map::<K, V>::empty(), insertions(pairs)), removals(order)) == Map::<
            K,
            V,
        >::empty(),
{
    let filled = apply_all(Map::<K, V>::empty(), insertions(pairs));
    lemma_keys_after_insertions(Map::<K, V>::empty(), pairs);
    lemma_keys_after_removals(filled, order);
    let emptied = apply_all(filled, removals(order));
    assert forall|k: K| !emptied.contains_key(k) by {
        if has_key(pairs, k) {
            let i = choose|i: int| 0 <= i < pairs.len() && (#[trigger] pairs[i]).0 == k;
            assert(order.contains(pairs[i].0));
        }
    }
    assert(emptied =~= Map::<K, V>::empty());
}

} // verus!
