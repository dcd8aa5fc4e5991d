use rastd::bs_tree::BSTree;

fn collect(tree: &BSTree<i32>) -> Vec<i32> {
    let mut iter = tree.iter();
    let mut values = vec![];
    while let Some(value) = iter.next() {
        values.push(*value);
    }
    values
}

#[test]
fn tree_search() {
    let mut tree = BSTree::new();
    tree.insert(3);
    tree.insert(4);
    assert!(tree.search(3).is_some());
    assert!(tree.search(4).is_some());
}

#[test]
fn tree_removal() {
    let mut tree = BSTree::new();
    tree.insert(3);
    tree.insert(4);
    assert!(tree.search(3).is_some());
    assert_eq!(tree.remove(4), true);
}

#[test]
fn tree_height() {
    let mut tree = BSTree::new();
    tree.insert(5);
    tree.insert(4);
    tree.insert(3);
    tree.insert(2);
    tree.insert(1);
    tree.insert(0);
    assert_eq!(tree.height(), 6);
}

#[test]
fn tree_iteration() {
    let mut tree = BSTree::new();
    tree.insert(4);
    tree.insert(3);
    tree.insert(5);
    tree.insert(0);
    tree.insert(2);
    tree.insert(1);
    let mut iter = tree.iter();
    assert_eq!(iter.next(), Some(&0));
    assert_eq!(iter.next(), Some(&1));
    assert_eq!(iter.next(), Some(&2));
    assert_eq!(iter.next(), Some(&3));
    assert_eq!(iter.next(), Some(&4));
    assert_eq!(iter.next(), Some(&5));
    assert_eq!(iter.next(), None);
}

#[test]
fn empty_search_tree() {
    let mut tree = BSTree::<i32>::new();
    assert!(!tree.is_node());
    assert_eq!(tree.height(), 0);
    assert_eq!(tree.balance(), 0);
    assert_eq!(tree.value(), None);
    assert!(tree.search(1).is_none());
    assert_eq!(tree.remove(1), false);
    assert_eq!(tree.iter().next(), None);
    assert!(!BSTree::<i32>::default().is_node());
}

#[test]
fn insert_says_whether_the_value_was_there() {
    let mut tree = BSTree::new();
    assert_eq!(tree.insert(3), false);
    assert_eq!(tree.insert(3), true);
    assert_eq!(tree.insert(1), false);
    assert_eq!(collect(&tree), vec![1, 3]);
}

#[test]
fn search_gives_the_subtree_of_the_value() {
    let mut tree = BSTree::new();
    for a in [4, 2, 6, 1, 3] {
        tree.insert(a);
    }
    let found = tree.search(2).unwrap();
    assert_eq!(found.value(), Some(&2));
    assert_eq!(collect(found), vec![1, 2, 3]);
    assert_eq!(tree.value(), Some(&4));
    assert!(tree.search(5).is_none());
}

#[test]
fn remove_node_with_two_subtrees() {
    let mut tree = BSTree::new();
    for a in [4, 2, 6, 5, 7, 1, 3] {
        tree.insert(a);
    }
    assert_eq!(tree.remove(4), true);
    assert_eq!(tree.value(), Some(&5));
    assert_eq!(collect(&tree), vec![1, 2, 3, 5, 6, 7]);
    assert_eq!(tree.remove(4), false);
    assert_eq!(tree.remove(6), true);
    assert_eq!(collect(&tree), vec![1, 2, 3, 5, 7]);
}

#[test]
fn remove_node_with_one_subtree_or_none() {
    let mut tree = BSTree::new();
    for a in [4, 2, 1, 6, 7] {
        tree.insert(a);
    }
    assert_eq!(tree.remove(2), true);
    assert_eq!(collect(&tree), vec![1, 4, 6, 7]);
    assert_eq!(tree.remove(6), true);
    assert_eq!(collect(&tree), vec![1, 4, 7]);
    assert_eq!(tree.remove(1), true);
    assert_eq!(tree.remove(7), true);
    assert_eq!(tree.remove(4), true);
    assert!(!tree.is_node());
}

#[test]
fn height_and_balance_of_a_lopsided_tree() {
    let mut tree = BSTree::new();
    for a in [1, 2, 3] {
        tree.insert(a);
    }
    assert_eq!(tree.height(), 3);
    assert_eq!(tree.balance(), 2);
    tree.insert(0);
    assert_eq!(tree.balance(), 1);
    let mut other = BSTree::new();
    for a in [3, 2, 1] {
        other.insert(a);
    }
    assert_eq!(other.balance(), -2);
}

#[test]
fn iteration_ascends_whatever_the_order_of_insertion() {
    let mut tree = BSTree::new();
    for a in [50, 20, 80, 10, 30, 70, 90, 25, 35, 85] {
        tree.insert(a);
    }
    assert_eq!(collect(&tree), vec![10, 20, 25, 30, 35, 50, 70, 80, 85, 90]);
    let mut iter = tree.iter();
    for _ in 0..10 {
        assert!(iter.next().is_some());
    }
    assert_eq!(iter.next(), None);
    assert_eq!(iter.next(), None);
}
