use avl_set::bst::Tree;

#[test]
fn bst_insert_basic() {
    let mut tree = Tree::new();
    tree.insert(5);
    assert!(tree.contains(5));
    assert!(!tree.contains(4));
}

#[test]
fn many_inserts() {
    let mut tree = Tree::new();
    for i in 0u64..100 {
        tree.insert(i);
    }
    for i in 0u64..100 {
        assert!(tree.contains(i));
    }
}

#[test]
fn bst_duplicate_insert_keeps_shape() {
    let mut tree = Tree::new();
    tree.insert(2);
    tree.insert(1);
    tree.insert(3);
    let before = format!("{:?}", tree);
    tree.insert(3);
    assert_eq!(format!("{:?}", tree), before);
}

#[test]
fn bst_delete_inner_value() {
    let mut tree = Tree::new();
    tree.insert(10);
    tree.insert(5);
    tree.insert(15);
    tree.insert(12);
    tree.insert(17);
    tree.delete(15);
    assert!(!tree.contains(15));
    assert!(tree.contains(10));
    assert!(tree.contains(5));
    assert!(tree.contains(12));
    assert!(tree.contains(17));
}

#[test]
fn bst_delete_root_keeps_rest() {
    let mut tree = Tree::new();
    tree.insert(10);
    tree.insert(5);
    tree.insert(15);
    tree.delete(10);
    assert!(!tree.contains(10));
    assert!(tree.contains(5));
    assert!(tree.contains(15));
}

#[test]
fn bst_delete_absent_is_noop() {
    let mut tree = Tree::new();
    tree.insert(2);
    tree.insert(1);
    let before = format!("{:?}", tree);
    tree.delete(7);
    assert_eq!(format!("{:?}", tree), before);
}

#[test]
fn bst_two_node_rotations() {
    let mut tree = Tree::new();
    tree.insert(1);
    tree.insert(2);
    tree.rotate_left();
    assert!(tree.contains(1));
    assert!(tree.contains(2));
    tree.rotate_right();
    assert!(tree.contains(1));
    assert!(tree.contains(2));
}
