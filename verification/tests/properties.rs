use avl_set::avl::Tree;

#[test]
fn empty_tree() {
    let mut tree = Tree::new();
    assert!(tree.check_invariants());
    assert!(!tree.contains(0));
    assert_eq!(tree.height(), 0);
    assert_eq!(tree.root_value(), None);
    let before = format!("{:?}", tree);
    tree.delete(1);
    assert_eq!(format!("{:?}", tree), before);
}

#[test]
fn membership_after_inserts_and_delete() {
    let mut tree = Tree::new();
    let values = [5u64, 1, 9, 3, 7];
    for v in values {
        tree.insert(v);
    }
    for v in values {
        assert!(tree.contains(v));
    }
    assert!(!tree.contains(2));
    assert!(!tree.contains(6));
    tree.delete(5);
    assert!(!tree.contains(5));
    for v in [1u64, 9, 3, 7] {
        assert!(tree.contains(v));
    }
}

#[test]
fn idempotent_insert() {
    let mut tree = Tree::new();
    tree.insert(3);
    tree.insert(1);
    tree.insert(2);
    let before = format!("{:?}", tree);
    tree.insert(2);
    assert_eq!(format!("{:?}", tree), before);
    tree.insert(3);
    assert_eq!(format!("{:?}", tree), before);
    assert!(tree.check_invariants());
}

#[test]
fn delete_absent_is_noop() {
    let mut tree = Tree::new();
    tree.insert(10);
    tree.insert(20);
    tree.insert(15);
    let before = format!("{:?}", tree);
    tree.delete(11);
    assert_eq!(format!("{:?}", tree), before);
    tree.delete(0);
    assert_eq!(format!("{:?}", tree), before);
    assert!(tree.check_invariants());
}

#[test]
fn height_stays_logarithmic() {
    // The AVL bound: the height never exceeds 1.45 * log2(n + 2).
    let mut tree = Tree::new();
    for i in 0u64..100 {
        tree.insert(i);
    }
    let bound = 1.45 * (102f64).log2();
    assert!((tree.height() as f64) <= bound);
    assert_eq!(tree.height(), 7);
}

#[test]
fn rotation_shapes_after_insertion() {
    // All four classic imbalance shapes end in the same balanced tree:
    // root 2, left 1, right 3, height 2.
    for order in [[1u64, 2, 3], [3, 2, 1], [1, 3, 2], [3, 1, 2]] {
        let mut tree = Tree::new();
        for v in order {
            tree.insert(v);
        }
        assert!(tree.check_invariants());
        assert_eq!(tree.root_value(), Some(2));
        assert_eq!(tree.height(), 2);
        assert!(tree.contains(1));
        assert!(tree.contains(2));
        assert!(tree.contains(3));
    }
}

#[test]
fn delete_with_two_children_uses_successor() {
    let mut tree = Tree::new();
    for v in [10u64, 5, 15, 12, 17] {
        tree.insert(v);
    }
    tree.delete(10);
    assert!(tree.check_invariants());
    assert!(!tree.contains(10));
    // The in-order successor of the old root takes its place.
    assert_eq!(tree.root_value(), Some(12));
    for v in [5u64, 15, 12, 17] {
        assert!(tree.contains(v));
    }
}

#[test]
fn delete_cascade_keeps_balance() {
    let mut tree = Tree::new();
    for i in 0u64..32 {
        tree.insert(i);
    }
    for i in (0u64..32).step_by(2) {
        tree.delete(i);
        assert!(tree.check_invariants());
    }
    for i in 0u64..32 {
        assert_eq!(tree.contains(i), i % 2 == 1);
    }
}

#[test]
fn explicit_rotations_preserve_contents() {
    let mut tree = Tree::new();
    for v in [4u64, 5, 6, 7] {
        tree.insert(v);
    }
    tree.rotate_left();
    tree.rotate_right();
    for v in [4u64, 5, 6, 7] {
        assert!(tree.contains(v));
    }
}
