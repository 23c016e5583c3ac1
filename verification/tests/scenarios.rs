//! Fixed-value scenarios: insertion order, successor splices and the
//! deficiency cascade, checked against literal expected sequences.

use rbbtree::RBBTree;

fn collect(tree: &RBBTree) -> Vec<u64> {
    let mut out = Vec::new();
    let mut it = tree.iter();
    while let Some(v) = it.next() {
        out.push(*v);
    }
    out
}

#[test]
fn insert_then_remove_in_order() {
    let values: Vec<u64> = vec![5, 3, 8, 1, 4, 7, 9];
    let mut tree = RBBTree::new();
    for v in values.iter() {
        tree.insert(*v);
    }
    assert_eq!(collect(&tree), vec![1, 3, 4, 5, 7, 8, 9]);
    assert!(tree.check_nodes());
    assert_eq!(tree.len(), 7);

    assert_eq!(tree.remove(&6), false);
    assert_eq!(tree.len(), 7);

    assert_eq!(tree.remove(&3), true);
    assert_eq!(collect(&tree), vec![1, 4, 5, 7, 8, 9]);
    assert!(tree.check_nodes());
}

#[test]
fn two_children_removal() {
    let mut tree = RBBTree::new();
    for v in [10u64, 5, 15, 3, 7, 12, 18] {
        tree.insert(v);
    }
    assert!(tree.check_nodes());
    assert_eq!(tree.remove(&10), true);
    assert_eq!(collect(&tree), vec![3, 5, 7, 12, 15, 18]);
    assert!(tree.check_nodes());
}

#[test]
fn deficiency_cascade() {
    let mut tree = RBBTree::new();
    for v in 1u64..16 {
        tree.insert(v);
        assert!(tree.check_nodes());
    }
    assert_eq!(tree.len(), 15);
    for v in 1u64..16 {
        assert_eq!(tree.remove(&v), true);
        assert!(tree.check_nodes());
        let seq = collect(&tree);
        for w in seq.windows(2) {
            assert!(w[0] <= w[1]);
        }
        assert_eq!(seq.len(), tree.len());
    }
    assert_eq!(tree.len(), 0);
    assert!(tree.iter().next().is_none());
}

#[test]
fn duplicates_kept_and_removed_one_at_a_time() {
    let mut tree = RBBTree::new();
    for v in [4u64, 4, 4, 2, 2, 9] {
        tree.insert(v);
        assert!(tree.check_nodes());
    }
    assert_eq!(collect(&tree), vec![2, 2, 4, 4, 4, 9]);
    assert_eq!(tree.remove(&4), true);
    assert_eq!(collect(&tree), vec![2, 2, 4, 4, 9]);
    assert_eq!(tree.remove(&4), true);
    assert_eq!(tree.remove(&4), true);
    assert_eq!(tree.remove(&4), false);
    assert_eq!(collect(&tree), vec![2, 2, 9]);
    assert!(tree.check_nodes());
}

#[test]
fn empty_tree_behaviour() {
    let mut tree = RBBTree::new();
    assert_eq!(tree.len(), 0);
    assert!(tree.check_nodes());
    assert!(tree.iter().next().is_none());
    assert_eq!(tree.remove(&7), false);
    assert_eq!(tree.len(), 0);
    assert!(tree.prefix_dump().is_empty());
}

#[test]
fn prefix_dump_lists_values_in_order() {
    let mut tree = RBBTree::new();
    for v in [10u64, 5, 15, 3, 7] {
        tree.insert(v);
    }
    let dump = tree.prefix_dump();
    let values: Vec<u64> = dump.iter().map(|e| e.value).collect();
    assert_eq!(values, vec![3, 5, 7, 10, 15]);
    // the root sits at level 0 and is black
    let root = dump.iter().find(|e| e.level == 0).unwrap();
    assert!(!root.red);
}

#[test]
fn extreme_values() {
    let mut tree = RBBTree::new();
    for v in [u64::MAX, 0, u64::MAX, 1, u64::MAX - 1] {
        tree.insert(v);
        assert!(tree.check_nodes());
    }
    assert_eq!(collect(&tree), vec![0, 1, u64::MAX - 1, u64::MAX, u64::MAX]);
    assert_eq!(tree.remove(&u64::MAX), true);
    assert_eq!(tree.remove(&0), true);
    assert_eq!(collect(&tree), vec![1, u64::MAX - 1, u64::MAX]);
    assert!(tree.check_nodes());
}

#[test]
fn iterator_is_exhausted_once_done() {
    let mut tree = RBBTree::new();
    tree.insert(1);
    tree.insert(2);
    let mut it = tree.iter();
    assert_eq!(it.next(), Some(&1));
    assert_eq!(it.next(), Some(&2));
    assert_eq!(it.next(), None);
    assert_eq!(it.next(), None);
    // a fresh iterator starts over
    assert_eq!(tree.iter().next(), Some(&1));
}
