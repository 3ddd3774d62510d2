#![allow(non_snake_case)]

use veb_tree::VEBTree;

#[test]
fn test_index_correctness() {}

#[test]
fn vEBtree_test_insert_and_delete_correctness() {
    let mut test_tree = VEBTree::new(16);
    let reference_tree = VEBTree::new(16);
    for i in 0..16 {
        test_tree.insert(i).unwrap();
    }
    for i in 0..16 {
        test_tree.delete(i).unwrap();
    }
    assert_eq!(test_tree, reference_tree);
}

#[test]
fn vEBtree_test_minimum_correctness() {
    let mut test_tree = VEBTree::new(16);
    for i in (0..16).rev() {
        test_tree.insert(i).unwrap();
        assert_eq!(test_tree.minimum(), Some(i));
    }
    for i in 0..15 {
        test_tree.delete(i).unwrap();
        assert_eq!(test_tree.minimum(), Some(i + 1));
    }
    for i in 0..16 {
        test_tree.insert(i).unwrap();
    }
    for i in 0..16 {
        if i % 2 == 0 {
            test_tree.delete(i).unwrap();
        } else {
            assert_eq!(test_tree.minimum(), Some(i));
            test_tree.delete(i).unwrap();
        }
    }
}

#[test]
fn vEBtree_test_maximum_correctness() {
    let mut test_tree = VEBTree::new(16);
    for i in 0..16 {
        test_tree.insert(i).unwrap();
        assert_eq!(test_tree.maximum(), Some(i));
    }
    for i in (0..16).rev() {
        assert_eq!(test_tree.maximum(), Some(i));
        test_tree.delete(i).unwrap();
    }
}

#[test]
fn vEBtree_test_findnext_correctness() {}

#[test]
fn vEBtree_test_findprev_correctness() {}
