use avl_set::avl::Tree;

#[test]
fn avl_insert_basic() {
    let mut tree = Tree::new();
    tree.insert(5);
    assert!(tree.check_invariants());
    assert!(tree.contains(5));
    assert!(!tree.contains(4));
}

#[test]
fn many_inserts_and_deletes() {
    let mut tree = Tree::new();
    for i in 0u64..100 {
        tree.insert(i);
        assert!(tree.check_invariants());
    }
    for i in 0u64..100 {
        assert!(tree.contains(i));
    }
    for i in 0u64..100 {
        tree.delete(i);
        assert!(tree.check_invariants());
        assert!(!tree.contains(i));
    }
}

#[test]
fn delete_edge_case() {
    let mut tree = Tree::new();
    tree.insert(10);
    tree.insert(20);
    tree.insert(15);
    tree.insert(17);
    tree.delete(10);
    assert!(tree.contains(20));
    assert!(tree.contains(15));
    assert!(tree.contains(17));
}

#[test]
fn two_node_left_rotate() {
    let mut tree = Tree::new();
    tree.insert(1);
    tree.insert(2);
    assert_eq!(tree.root_value(), Some(1));
    assert!(tree.contains(2));
    assert!(tree.check_invariants());
    tree.rotate_left();
    assert!(tree.check_invariants());
    assert_eq!(tree.root_value(), Some(2));
    assert!(tree.contains(1));
}

#[test]
fn two_node_right_rotate() {
    let mut tree = Tree::new();
    tree.insert(2);
    tree.insert(1);
    assert_eq!(tree.root_value(), Some(2));
    assert!(tree.contains(1));
    assert!(tree.check_invariants());
    tree.rotate_right();
    assert!(tree.check_invariants());
    assert_eq!(tree.root_value(), Some(1));
    assert!(tree.contains(2));
}

#[test]
fn rotate_right_left_insertion() {
    let mut tree = Tree::new();
    tree.insert(1);
    tree.insert(3);
    tree.insert(2);
    assert!(tree.check_invariants());
    assert_eq!(tree.height(), 2);
}

#[test]
fn rotate_left_insertion() {
    let mut tree = Tree::new();
    tree.insert(1);
    tree.insert(2);
    tree.insert(3);
    assert!(tree.check_invariants());
    assert_eq!(tree.height(), 2);
}

#[test]
fn rotate_right_insertion() {
    let mut tree = Tree::new();
    tree.insert(3);
    tree.insert(2);
    tree.insert(1);
    assert!(tree.check_invariants());
    assert_eq!(tree.height(), 2);
}

#[test]
fn rotate_left_right_insertion() {
    let mut tree = Tree::new();
    tree.insert(3);
    tree.insert(1);
    tree.insert(2);
    assert!(tree.check_invariants());
    assert_eq!(tree.height(), 2);
}
