use binary_search_tree::avl_tree::AVLTreeMap;
use binary_search_tree::tree_trait::BinarySearchTree;

fn assert_sorted_and_sized(tree: &AVLTreeMap) {
    let entries = tree.entries();
    assert_eq!(entries.len(), tree.size());
    for w in entries.windows(2) {
        assert!(w[0].0 < w[1].0);
    }
    // The proved height bound: 2^(height / 2) <= size + 1.
    let h = tree.height();
    assert!(1usize << (h / 2) <= tree.size() + 1);
}

#[test]
fn invariants_after_every_operation() {
    let mut tree = AVLTreeMap::new();
    let keys = [
        31, 7, 40, 2, 19, 55, 11, 47, 23, 3, 61, 13, 29, 5, 37, 17, 43, 53, 59, 41,
    ];
    for (i, &k) in keys.iter().enumerate() {
        tree.insert(k, k * 10);
        assert_sorted_and_sized(&tree);
        assert_eq!(tree.size(), i + 1);
    }
    for (i, &k) in keys.iter().enumerate() {
        assert_eq!(tree.remove(k), Some(k * 10));
        assert_sorted_and_sized(&tree);
        assert_eq!(tree.size(), keys.len() - i - 1);
    }
    assert!(tree.is_empty());
}

#[test]
fn ascending_inserts_stay_balanced() {
    let mut tree = AVLTreeMap::new();
    for k in 1..=5 {
        tree.insert(k, k);
    }
    assert_eq!(tree.entries(), vec![(1, 1), (2, 2), (3, 3), (4, 4), (5, 5)]);
    // Not a degenerate right-leaning chain: height stays within
    // ceil(log2(6)) + 1 = 3.
    assert!(tree.height() <= 3);

    let mut big = AVLTreeMap::new();
    for k in 1..=1000 {
        big.insert(k, -k);
    }
    assert_eq!(big.size(), 1000);
    // An AVL tree of 1000 keys has height at most 1.44 * log2(1002) < 15.
    assert!(big.height() <= 15);
    assert_eq!(big.min(), Some((1, -1)));
    assert_eq!(big.max(), Some((1000, -1000)));
}

#[test]
fn descending_inserts_stay_balanced() {
    let mut tree = AVLTreeMap::new();
    for k in (1..=1000).rev() {
        tree.insert(k, k + 1);
    }
    assert_eq!(tree.size(), 1000);
    assert!(tree.height() <= 15);
    for k in 1..=1000 {
        assert_eq!(tree.get(k), Some(k + 1));
        assert_eq!(tree.order_of_key(k), (k - 1) as usize);
    }
}

#[test]
fn insert_then_get_returns_inserted_value() {
    let mut tree = AVLTreeMap::new();
    assert!(tree.insert(7, 70));
    assert_eq!(tree.get(7), Some(70));
    // Re-inserting an existing key: false, same size, new value.
    assert!(!tree.insert(7, 71));
    assert_eq!(tree.size(), 1);
    assert_eq!(tree.get(7), Some(71));
    assert_eq!(tree.entries(), vec![(7, 71)]);
}

#[test]
fn remove_absent_key_leaves_tree_unchanged() {
    let mut tree = AVLTreeMap::new();
    for k in [5, 1, 9, 3, 7] {
        tree.insert(k, k * 2);
    }
    let before = tree.entries();
    assert_eq!(tree.remove(4), None);
    assert_eq!(tree.entries(), before);
    assert_eq!(tree.size(), 5);
    // Removing a present key returns its value and shrinks by one.
    assert_eq!(tree.remove(3), Some(6));
    assert_eq!(tree.size(), 4);
}

#[test]
fn order_of_key_find_by_order_roundtrip() {
    let mut tree = AVLTreeMap::new();
    for (k, v) in [(1, 1), (2, 2), (4, 3), (8, 4), (16, 5)] {
        tree.insert(k, v);
    }
    for (k, v) in [(1, 1), (2, 2), (4, 3), (8, 4), (16, 5)] {
        let rank = tree.order_of_key(k);
        assert_eq!(tree.find_by_order(rank), Some((k, v)));
    }
}

#[test]
fn seven_keys_then_remove_root() {
    let mut tree = AVLTreeMap::new();
    for k in [4, 2, 6, 1, 3, 5, 7] {
        tree.insert(k, k);
    }
    assert_eq!(tree.keys(), vec![1, 2, 3, 4, 5, 6, 7]);
    assert_eq!(tree.remove(4), Some(4));
    assert_eq!(tree.keys(), vec![1, 2, 3, 5, 6, 7]);
    assert_eq!(tree.size(), 6);
}

#[test]
fn remove_all_empties_min_and_max() {
    let mut tree = AVLTreeMap::new();
    for k in [8, 3, 10, 1, 6, 14, 4, 7, 13] {
        tree.insert(k, k);
    }
    for k in [8, 3, 10, 1, 6, 14, 4, 7, 13] {
        assert_eq!(tree.remove(k), Some(k));
    }
    assert!(tree.is_empty());
    assert_eq!(tree.min(), None);
    assert_eq!(tree.max(), None);
    assert_eq!(tree.size(), 0);
}

#[test]
fn keys_and_values_ascend_by_key() {
    let mut tree = AVLTreeMap::new();
    for (k, v) in [(30, 1), (10, 2), (20, 3)] {
        tree.insert(k, v);
    }
    assert_eq!(tree.keys(), vec![10, 20, 30]);
    assert_eq!(tree.values(), vec![2, 3, 1]);
    assert_eq!(tree.entries(), vec![(10, 2), (20, 3), (30, 1)]);
}

#[test]
fn get_mut_overwrites_in_place() {
    let mut tree = AVLTreeMap::new();
    tree.insert(1, 10);
    tree.insert(2, 20);
    tree.insert(3, 30);
    if let Some(v) = tree.get_mut(2) {
        assert_eq!(*v, 20);
        *v = 99;
    } else {
        panic!("key 2 should be present");
    }
    assert_eq!(tree.get(2), Some(99));
    assert_eq!(tree.size(), 3);
    assert_eq!(tree.get_mut(4), None);
    assert_eq!(tree.entries(), vec![(1, 10), (2, 99), (3, 30)]);
    if let Some(v) = BinarySearchTree::search_mut(&mut tree, 1) {
        *v = -1;
    }
    assert_eq!(tree.get(1), Some(-1));
}

#[test]
fn contains_reports_membership() {
    let mut tree = AVLTreeMap::new();
    tree.insert(2, 4);
    assert!(tree.contains(2));
    assert!(!tree.contains(3));
    tree.remove(2);
    assert!(!tree.contains(2));
}

#[test]
fn negative_and_extreme_keys() {
    let mut tree = AVLTreeMap::new();
    tree.insert(i64::MIN, 1);
    tree.insert(i64::MAX, 2);
    tree.insert(0, 3);
    assert_eq!(tree.entries(), vec![(i64::MIN, 1), (0, 3), (i64::MAX, 2)]);
    assert_eq!(tree.min(), Some((i64::MIN, 1)));
    assert_eq!(tree.max(), Some((i64::MAX, 2)));
    assert_eq!(tree.order_of_key(i64::MAX), 2);
    assert_eq!(tree.order_of_key(i64::MIN), 0);
}

#[test]
fn from_entries_inserts_in_order() {
    let tree = AVLTreeMap::from_entries(&vec![(3, 1), (1, 2), (3, 5), (2, 4)]);
    // The later entry for key 3 wins.
    assert_eq!(tree.entries(), vec![(1, 2), (2, 4), (3, 5)]);
}

#[test]
fn default_is_empty() {
    let tree = AVLTreeMap::default();
    assert!(tree.is_empty());
    assert_eq!(tree.entries(), vec![]);
}

#[test]
fn trait_interface_matches_inherent_one() {
    let mut tree = AVLTreeMap::new();
    assert!(BinarySearchTree::insert(&mut tree, 5, 50));
    assert!(BinarySearchTree::insert(&mut tree, 2, 20));
    assert!(BinarySearchTree::insert(&mut tree, 9, 90));
    assert_eq!(BinarySearchTree::search(&tree, 2), Some(20));
    assert_eq!(BinarySearchTree::search(&tree, 4), None);
    assert_eq!(BinarySearchTree::min(&tree), Some((2, 20)));
    assert_eq!(BinarySearchTree::max(&tree), Some((9, 90)));
    assert_eq!(BinarySearchTree::size(&tree), 3);
    assert!(!BinarySearchTree::is_empty(&tree));
    assert_eq!(BinarySearchTree::find_by_order(&tree, 1), Some((5, 50)));
    assert_eq!(BinarySearchTree::order_of_key(&tree, 9), 2);
    assert_eq!(BinarySearchTree::remove(&mut tree, 5), Some(50));
    assert_eq!(BinarySearchTree::size(&tree), 2);
}

#[test]
fn alternating_churn_keeps_order() {
    let mut tree = AVLTreeMap::new();
    for round in 0..10 {
        for k in 0..50 {
            tree.insert(k * 10 + round, k);
        }
        for k in 0..25 {
            assert_eq!(tree.remove(k * 10 + round), Some(k));
        }
        assert_sorted_and_sized(&tree);
    }
    assert_eq!(tree.size(), 25 * 10);
}
