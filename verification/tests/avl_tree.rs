use quickcheck::quickcheck;
use rastd::avl_tree::{AVLTree, Entry};
use std::collections::HashSet;

fn height_internal(tree: &AVLTree<i32, i32>) -> usize {
    match tree {
        AVLTree::Node(node) => {
            1 + std::cmp::max(
                height_internal(node.left_node()),
                height_internal(node.right_node()),
            )
        }
        AVLTree::Nil => 0,
    }
}

fn balanced_internal(tree: &AVLTree<i32, i32>) -> bool {
    match tree {
        AVLTree::Node(node) => {
            let left = node.left_node();
            let right = node.right_node();
            balanced_internal(left)
                && balanced_internal(right)
                && ((height_internal(left) as isize) - (height_internal(right) as isize)).abs() <= 1
        }
        AVLTree::Nil => true,
    }
}

/// Every node has stored the height of its subtree.
fn heights_internal(tree: &AVLTree<i32, i32>) -> bool {
    match tree {
        AVLTree::Node(node) => {
            heights_internal(node.left_node())
                && heights_internal(node.right_node())
                && tree.height() == height_internal(tree)
        }
        AVLTree::Nil => tree.height() == 0,
    }
}

fn insert_same(tree: &mut AVLTree<i32, i32>, k: i32) {
    tree.insert(k, k);
}

fn test_insertion_balance(input: Vec<i32>) {
    let mut tree = AVLTree::<i32, i32>::new();
    for i in input.iter() {
        tree.insert(*i, *i);
    }
    assert!(balanced_internal(&tree));
    for i in input.iter() {
        assert_eq!(tree.get(i), Some(i));
    }
}

fn build(input: &[i32]) -> AVLTree<i32, i32> {
    let mut tree = AVLTree::new();
    for i in input {
        tree.insert(*i, *i * 10);
    }
    tree
}

/// A sequence of distinct numbers in a scrambled order.
fn scrambled(n: usize, seed: u64) -> Vec<i32> {
    let mut values: Vec<i32> = (0..n as i32).map(|i| i * 7 - 300).collect();
    let mut state = seed;
    for i in (1..values.len()).rev() {
        state = state.wrapping_mul(6364136223846793005).wrapping_add(1442695040888963407);
        let j = (state >> 33) as usize % (i + 1);
        values.swap(i, j);
    }
    values
}

#[test]
fn insert_and_get() {
    let mut tree = AVLTree::new();
    tree.insert(10, 10);
    assert_eq!(tree.get(&10), Some(&10));
    assert_eq!(tree.get(&9), None);
}

#[test]
fn rotate_right() {
    test_insertion_balance(vec![10, 5, 0]);
    test_insertion_balance(vec![15, 10, 20, 5, 0]);
    test_insertion_balance(vec![15, 10, 20, 5, 12, 0]);
}

#[test]
fn rotate_left() {
    test_insertion_balance(vec![0, 5, 10]);
    test_insertion_balance(vec![15, 10, 20, 25, 30]);
    test_insertion_balance(vec![15, 10, 20, 18, 25, 30]);
    test_insertion_balance(vec![15, 10, 20, 18, 25, 22]);
}

#[test]
fn rotate_right_left() {
    test_insertion_balance(vec![15, 10, 20, 18, 25, 19]);
}

#[test]
fn rotate_left_right() {
    test_insertion_balance(vec![15, 10, 20, 5, 12, 14]);
}

#[test]
fn remove_left() {
    let mut tree = AVLTree::new();
    tree.insert(5, 5);
    tree.insert(2, 2);
    assert_eq!(tree.remove(&5), Some(5));
    assert_eq!(tree.get(&5), None);
    assert_eq!(tree.get(&2), Some(&2));
}

#[test]
fn remove_right() {
    let mut tree = AVLTree::new();
    tree.insert(5, 5);
    tree.insert(2, 2);
    tree.insert(7, 7);
    assert_eq!(tree.remove(&5), Some(5));
    assert_eq!(tree.get(&5), None);
    assert_eq!(tree.get(&2), Some(&2));
    assert_eq!(tree.get(&7), Some(&7));
}

#[test]
fn remove_right_leftmost() {
    let mut tree = AVLTree::new();
    tree.insert(5, 5);
    tree.insert(2, 2);
    tree.insert(7, 7);
    tree.insert(6, 6);
    assert_eq!(tree.remove(&5), Some(5));
    assert_eq!(tree.get(&5), None);
    assert_eq!(tree.get(&6), Some(&6));
    assert_eq!(tree.get(&2), Some(&2));
    assert_eq!(tree.get(&7), Some(&7));
}

#[test]
fn remove_left_balance() {
    let mut tree = AVLTree::new();
    insert_same(&mut tree, 5);
    insert_same(&mut tree, 4);
    insert_same(&mut tree, 6);
    insert_same(&mut tree, 7);
    tree.remove(&4);
    assert!(balanced_internal(&tree));
}

#[test]
fn remove_right_balance() {
    let mut tree = AVLTree::new();
    insert_same(&mut tree, 5);
    insert_same(&mut tree, 4);
    insert_same(&mut tree, 6);
    insert_same(&mut tree, 3);
    tree.remove(&6);
    assert!(balanced_internal(&tree));
}

#[test]
fn first_last() {
    let mut tree = AVLTree::new();
    insert_same(&mut tree, 5);
    insert_same(&mut tree, 4);
    insert_same(&mut tree, 6);
    insert_same(&mut tree, 3);
    assert_eq!(tree.first(), Some(&3));
    assert_eq!(tree.last(), Some(&6));
}

#[test]
fn prop_insertion() {
    fn p(input: HashSet<i32>) -> bool {
        let mut tree = AVLTree::new();
        for i in input.iter() {
            tree.insert(*i, *i);
        }
        input.iter().all(|i| tree.get(i).is_some())
    }
    quickcheck(p as fn(HashSet<i32>) -> bool)
}

#[test]
fn prop_balance() {
    fn p(input: HashSet<i32>) -> bool {
        let mut tree = AVLTree::new();
        for i in input.iter() {
            tree.insert(*i, *i);
        }
        balanced_internal(&tree)
    }
    quickcheck(p as fn(HashSet<i32>) -> bool)
}

#[test]
fn prop_removal() {
    fn p(input: HashSet<i32>) -> bool {
        let seq = input.into_iter().collect::<Vec<_>>();
        let mut tree = AVLTree::new();
        for i in seq.iter() {
            tree.insert(*i, *i);
        }
        let mut balanced = true;
        for i in seq.iter() {
            assert_eq!(tree.remove(i), Some(*i));
            balanced = balanced && balanced_internal(&tree);
        }
        balanced
    }
    quickcheck(p as fn(HashSet<i32>) -> bool)
}

#[test]
fn new_tree_is_empty() {
    let tree = AVLTree::<i32, i32>::new();
    assert_eq!(tree.height(), 0);
    assert_eq!(tree.balance_factor(), 0);
    assert_eq!(tree.first(), None);
    assert_eq!(tree.last(), None);
    assert_eq!(tree.get(&1), None);
    assert!(matches!(tree, AVLTree::Nil));
    assert!(matches!(AVLTree::<i32, i32>::default(), AVLTree::Nil));
}

#[test]
fn remove_from_empty_tree() {
    let mut tree = AVLTree::<i32, i32>::new();
    assert_eq!(tree.remove(&3), None);
    assert!(matches!(tree, AVLTree::Nil));
}

#[test]
fn insert_returns_previous_value() {
    let mut tree = AVLTree::new();
    assert_eq!(tree.insert(1, 10), None);
    assert_eq!(tree.insert(1, 11), Some(10));
    assert_eq!(tree.insert(2, 20), None);
    assert_eq!(tree.get(&1), Some(&11));
    assert_eq!(tree.get(&2), Some(&20));
}

#[test]
fn overwrite_keeps_one_entry_and_the_shape() {
    let mut tree = build(&[15, 10, 20]);
    let height = tree.height();
    assert_eq!(tree.insert(10, 1), Some(100));
    assert_eq!(tree.insert(10, 2), Some(1));
    assert_eq!(tree.get(&10), Some(&2));
    assert_eq!(tree.height(), height);
    assert_eq!(tree.remove(&10), Some(2));
    assert_eq!(tree.get(&10), None);
    assert_eq!(tree.remove(&10), None);
}

#[test]
fn round_trip_survives_other_changes() {
    let mut tree = AVLTree::new();
    tree.insert(7, 70);
    for k in [1, 2, 3, 4, 5, 6, 8, 9, 10] {
        tree.insert(k, k);
    }
    for k in [2, 4, 6, 8] {
        assert_eq!(tree.remove(&k), Some(k));
    }
    tree.insert(3, 33);
    assert_eq!(tree.get(&7), Some(&70));
    assert_eq!(tree.get(&3), Some(&33));
    assert_eq!(tree.get(&4), None);
}

#[test]
fn removal_leaves_the_other_keys() {
    let mut tree = build(&[15, 10, 20, 5, 12, 18, 25]);
    assert_eq!(tree.remove(&15), Some(150));
    assert_eq!(tree.get(&15), None);
    for k in [10, 20, 5, 12, 18, 25] {
        assert_eq!(tree.get(&k), Some(&(k * 10)));
    }
    assert_eq!(tree.remove(&99), None);
    for k in [10, 20, 5, 12, 18, 25] {
        assert_eq!(tree.get(&k), Some(&(k * 10)));
    }
    assert!(balanced_internal(&tree));
    assert!(heights_internal(&tree));
}

#[test]
fn insert_then_remove_all_leaves_nothing() {
    let keys = scrambled(40, 11);
    let mut tree = AVLTree::new();
    for k in keys.iter() {
        tree.insert(*k, *k);
    }
    for k in scrambled(40, 99).iter() {
        assert_eq!(tree.remove(k), Some(*k));
    }
    assert_eq!(tree.first(), None);
    assert_eq!(tree.last(), None);
    assert!(matches!(tree, AVLTree::Nil));
}

#[test]
fn right_rotation_after_five_inserts() {
    let tree = build(&[15, 20, 10, 5, 0]);
    assert!(balanced_internal(&tree));
    assert!(heights_internal(&tree));
    assert_eq!(tree.height(), 3);
    for k in [15, 20, 10, 5, 0] {
        assert_eq!(tree.get(&k), Some(&(k * 10)));
    }
    match &tree {
        AVLTree::Node(root) => {
            assert_eq!(root.left_node().first(), Some(&0));
            assert_eq!(root.left_node().last(), Some(&10));
            assert_eq!(root.left_node().height(), 2);
            assert_eq!(root.right_node().first(), Some(&20));
        }
        AVLTree::Nil => panic!("five keys were inserted"),
    }
}

#[test]
fn ascending_inserts_stay_shallow() {
    let tree = build(&[0, 5, 10, 15, 20, 25, 30]);
    assert_eq!(tree.height(), 3);
    assert_eq!(height_internal(&tree), 3);
    assert_eq!(tree.balance_factor(), 0);
    assert!(balanced_internal(&tree));
    assert_eq!(tree.first(), Some(&0));
    assert_eq!(tree.last(), Some(&30));
}

#[test]
fn double_rotations_keep_every_key() {
    for input in [[15, 10, 20, 18, 25, 19], [15, 10, 20, 5, 12, 14]] {
        let tree = build(&input);
        assert!(balanced_internal(&tree));
        assert!(heights_internal(&tree));
        assert_eq!(tree.height(), 3);
        for k in input {
            assert_eq!(tree.get(&k), Some(&(k * 10)));
        }
    }
}

#[test]
fn remove_keeps_balance_and_the_rest() {
    let mut tree = build(&[5, 4, 6, 7]);
    assert_eq!(tree.remove(&4), Some(40));
    assert!(balanced_internal(&tree));
    assert!(heights_internal(&tree));
    assert_eq!(tree.get(&4), None);
    for k in [5, 6, 7] {
        assert_eq!(tree.get(&k), Some(&(k * 10)));
    }
    assert_eq!(tree.height(), 2);
}

#[test]
fn scrambled_inserts_and_removals() {
    for seed in [1, 2, 3, 4, 5] {
        let keys = scrambled(200, seed);
        let mut tree = AVLTree::new();
        for k in keys.iter() {
            assert_eq!(tree.insert(*k, *k + 1), None);
            assert!(balanced_internal(&tree));
        }
        assert!(heights_internal(&tree));
        for k in keys.iter() {
            assert_eq!(tree.get(k), Some(&(*k + 1)));
        }
        assert_eq!(tree.first(), Some(&-300));
        assert_eq!(tree.last(), Some(&(199 * 7 - 300)));
        for k in scrambled(200, seed + 100).iter() {
            assert_eq!(tree.remove(k), Some(*k + 1));
            assert!(balanced_internal(&tree));
            assert!(heights_internal(&tree));
            assert_eq!(tree.get(k), None);
        }
        assert!(matches!(tree, AVLTree::Nil));
    }
}

#[test]
fn update_height_recomputes_the_stored_height() {
    let mut tree = build(&[2, 1, 3]);
    tree.update_height();
    assert_eq!(tree.height(), 2);
    assert_eq!(tree.balance_factor(), 0);
    let mut empty = AVLTree::<i32, i32>::new();
    empty.update_height();
    assert_eq!(empty.height(), 0);
}

#[test]
fn balance_factor_is_right_minus_left() {
    assert_eq!(build(&[2, 1]).balance_factor(), -1);
    assert_eq!(build(&[2, 3]).balance_factor(), 1);
    assert_eq!(build(&[2]).balance_factor(), 0);
}

#[test]
fn entry_holds_what_it_is_given() {
    let entry = Entry::new(1, "one");
    assert_eq!(format!("{:?}", entry), "Entry { key: 1, value: \"one\" }");
}

#[test]
fn height_stays_logarithmic() {
    let mut tree = AVLTree::new();
    for k in 0..1000 {
        tree.insert(k, k);
    }
    // With n keys a balanced tree has 2^(height / 2) <= n + 1.
    assert!(1usize << (tree.height() / 2) <= 1001);
    assert_eq!(tree.height(), 10);
    assert_eq!(height_internal(&tree), 10);
    for k in 0..990 {
        tree.remove(&k);
    }
    assert_eq!(tree.height(), 4);
    assert!(balanced_internal(&tree));
}

/// What lies left of a node sorts before what lies right of it, at every
/// node.
fn sides_in_order(tree: &AVLTree<i32, i32>) -> bool {
    match tree {
        AVLTree::Node(node) => {
            let (left, right) = (node.left_node(), node.right_node());
            let apart = match (left.last(), right.first()) {
                (Some(below), Some(above)) => below < above,
                _ => true,
            };
            apart && sides_in_order(left) && sides_in_order(right)
        }
        AVLTree::Nil => true,
    }
}

#[test]
fn keys_are_met_in_ascending_order() {
    let keys = scrambled(60, 7);
    let mut tree = AVLTree::new();
    for k in keys.iter() {
        tree.insert(*k, *k);
    }
    assert!(sides_in_order(&tree));
    let mut met = vec![];
    while let Some(k) = tree.first().copied() {
        assert_eq!(tree.remove(&k), Some(k));
        assert!(sides_in_order(&tree));
        met.push(k);
    }
    let mut sorted = keys.clone();
    sorted.sort();
    assert_eq!(met, sorted);
    assert!(met.windows(2).all(|pair| pair[0] < pair[1]));
}
