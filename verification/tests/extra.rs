use veb_tree::{VEBTree, VebError};

#[test]
fn test_out_of_range_insert_is_rejected() {
    let mut tree = VEBTree::new(16);
    assert_eq!(tree.insert(16), Err(VebError::ValueOutOfRange));
    assert_eq!(tree.insert(100), Err(VebError::ValueOutOfRange));
    assert_eq!(tree, VEBTree::new(16));
}

#[test]
fn test_out_of_range_delete_is_rejected() {
    let mut tree = VEBTree::new(16);
    tree.insert(3).unwrap();
    assert_eq!(tree.delete(16), Err(VebError::ValueOutOfRange));
    assert!(tree.contains(3));
}

#[test]
fn test_out_of_range_queries() {
    let mut tree = VEBTree::new(16);
    tree.insert(3).unwrap();
    assert!(!tree.contains(16));
    assert_eq!(tree.search(20), None);
    assert_eq!(tree.findnext(16), None);
    assert_eq!(tree.findprev(16), None);
}

#[test]
fn test_empty_tree() {
    let mut tree = VEBTree::new(16);
    assert_eq!(tree.minimum(), None);
    assert_eq!(tree.maximum(), None);
    assert_eq!(tree.findnext(0), None);
    assert_eq!(tree.findprev(15), None);
    assert!(!tree.contains(0));
    assert_eq!(tree.search(0), None);
    tree.delete(5).unwrap();
    assert_eq!(tree, VEBTree::new(16));
}

#[test]
fn test_zero_capacity() {
    let mut tree = VEBTree::new(0);
    assert_eq!(tree.insert(0), Err(VebError::ValueOutOfRange));
    assert_eq!(tree.minimum(), None);
}

#[test]
fn test_one_capacity() {
    let mut tree = VEBTree::new(1);
    tree.insert(0).unwrap();
    assert_eq!(tree.minimum(), Some(0));
    assert_eq!(tree.maximum(), Some(0));
    assert_eq!(tree.insert(1), Err(VebError::ValueOutOfRange));
    tree.delete(0).unwrap();
    assert_eq!(tree.minimum(), None);
}

#[test]
fn test_leaf_capacity_two() {
    let mut tree = VEBTree::new(2);
    tree.insert(1).unwrap();
    tree.insert(0).unwrap();
    assert_eq!(tree.findnext(0), Some(1));
    assert_eq!(tree.findprev(1), Some(0));
    tree.delete(0).unwrap();
    assert_eq!(tree.minimum(), Some(1));
    assert_eq!(tree.maximum(), Some(1));
}

#[test]
fn test_non_square_capacity_three() {
    let mut tree = VEBTree::new(3);
    for i in 0..3 {
        tree.insert(i).unwrap();
    }
    for i in 0..3 {
        assert!(tree.contains(i));
        assert_eq!(tree.search(i), Some(i));
    }
    assert_eq!(tree.findnext(0), Some(1));
    assert_eq!(tree.findnext(1), Some(2));
    assert_eq!(tree.findnext(2), None);
    assert_eq!(tree.findprev(2), Some(1));
    assert_eq!(tree.findprev(1), Some(0));
    assert_eq!(tree.findprev(0), None);
}

#[test]
fn test_insert_idempotent() {
    let mut tree = VEBTree::new(16);
    tree.insert(5).unwrap();
    tree.insert(9).unwrap();
    let mut snapshot = VEBTree::new(16);
    snapshot.insert(5).unwrap();
    snapshot.insert(9).unwrap();
    tree.insert(5).unwrap();
    tree.insert(9).unwrap();
    assert_eq!(tree, snapshot);
}

#[test]
fn test_delete_absent_is_noop() {
    let mut tree = VEBTree::new(16);
    tree.insert(5).unwrap();
    tree.insert(9).unwrap();
    let mut snapshot = VEBTree::new(16);
    snapshot.insert(5).unwrap();
    snapshot.insert(9).unwrap();
    tree.delete(7).unwrap();
    tree.delete(0).unwrap();
    tree.delete(15).unwrap();
    assert_eq!(tree, snapshot);
}

#[test]
fn test_delete_single_element_absent_value() {
    let mut tree = VEBTree::new(16);
    tree.insert(5).unwrap();
    tree.delete(3).unwrap();
    assert!(tree.contains(5));
    assert_eq!(tree.minimum(), Some(5));
}

#[test]
fn test_predecessor_through_singleton_cluster() {
    let mut tree = VEBTree::new(4);
    tree.insert(0).unwrap();
    tree.insert(2).unwrap();
    assert_eq!(tree.findprev(1), Some(0));
    assert_eq!(tree.findprev(2), Some(0));
    assert_eq!(tree.findprev(3), Some(2));
}

#[test]
fn test_successor_gap() {
    let mut tree = VEBTree::new(16);
    tree.insert(3).unwrap();
    tree.insert(7).unwrap();
    assert_eq!(tree.findnext(3), Some(7));
    assert_eq!(tree.findnext(4), Some(7));
    assert_eq!(tree.findnext(6), Some(7));
    assert_eq!(tree.findnext(7), None);
    assert_eq!(tree.findprev(7), Some(3));
    assert_eq!(tree.findprev(4), Some(3));
}

#[test]
fn test_ordering_invariant() {
    let mut tree = VEBTree::new(32);
    for v in [9usize, 2, 27, 14, 2, 30] {
        tree.insert(v).unwrap();
    }
    tree.delete(14).unwrap();
    tree.delete(5).unwrap();
    let mn = tree.minimum().unwrap();
    let mx = tree.maximum().unwrap();
    assert!(mn <= mx);
    for v in 0..32 {
        if tree.contains(v) {
            assert!(mn <= v && v <= mx);
        }
    }
    assert_eq!(mn, 2);
    assert_eq!(mx, 30);
}

#[test]
fn test_displaced_minimum_stays_findable() {
    let mut tree = VEBTree::new(16);
    for i in (0..16).rev() {
        tree.insert(i).unwrap();
        for j in i..16 {
            assert_eq!(tree.search(j), Some(j));
        }
    }
}

#[test]
fn test_large_round_trip_descending() {
    let mut tree = VEBTree::new(100);
    let reference = VEBTree::new(100);
    for i in (0..100).rev() {
        tree.insert(i).unwrap();
    }
    for i in 0..100 {
        assert!(tree.contains(i));
    }
    for i in (0..100).rev() {
        tree.delete(i).unwrap();
    }
    assert_eq!(tree, reference);
}
