use binary_search_tree::avl_set::AVLTreeSet;

#[test]
fn set_insert_and_elements() {
    let mut set = AVLTreeSet::new();
    assert!(set.insert(4));
    assert!(set.insert(1));
    assert!(set.insert(3));
    assert!(set.insert(2));
    assert!(set.insert(5));
    assert!(!set.insert(3));
    assert_eq!(set.elements(), vec![1, 2, 3, 4, 5]);
    assert_eq!(set.size(), 5);
}

#[test]
fn set_remove() {
    let mut set = AVLTreeSet::new();
    for k in [4, 1, 3, 2, 5] {
        set.insert(k);
    }
    assert!(set.remove(4));
    assert!(!set.remove(4));
    assert_eq!(set.elements(), vec![1, 2, 3, 5]);
}

#[test]
fn set_remove_all_empties() {
    let mut set = AVLTreeSet::new();
    for k in 1..=20 {
        set.insert(k);
    }
    for k in 1..=20 {
        assert!(set.remove(k));
    }
    assert!(set.is_empty());
    assert_eq!(set.min(), None);
    assert_eq!(set.max(), None);
    assert_eq!(set.size(), 0);
}

#[test]
fn set_contains() {
    let mut set = AVLTreeSet::new();
    set.insert(7);
    assert!(set.contains(7));
    assert!(!set.contains(8));
}

#[test]
fn set_min_max() {
    let mut set = AVLTreeSet::new();
    for k in [9, 2, 6, 4, 11] {
        set.insert(k);
    }
    assert_eq!(set.min(), Some(2));
    assert_eq!(set.max(), Some(11));
}

#[test]
fn set_order_statistics() {
    let mut set = AVLTreeSet::new();
    for k in [1, 2, 4, 8, 16] {
        set.insert(k);
    }
    assert_eq!(set.order_of_key(5), 3);
    assert_eq!(set.order_of_key(17), 5);
    assert_eq!(set.find_by_order(0), Some(1));
    assert_eq!(set.find_by_order(3), Some(8));
    assert_eq!(set.find_by_order(5), None);
    for k in [1, 2, 4, 8, 16] {
        assert_eq!(set.find_by_order(set.order_of_key(k)), Some(k));
    }
}

#[test]
fn set_default_is_empty() {
    let set = AVLTreeSet::default();
    assert!(set.is_empty());
    assert_eq!(set.elements(), vec![]);
}
