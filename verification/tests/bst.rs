use bst::BinarySearchTree;
use bst::Node;

#[test]
fn empty_tree_baseline() {
    let t = BinarySearchTree::new();
    assert_eq!(t.height(), 0);
    assert_eq!(t.inorder_traversal(), Vec::<i32>::new());
    assert!(!t.search(0));
    assert!(!t.search(42));
    assert!(!t.search(-7));
    assert!(!t.search(i32::MIN));
    assert!(!t.search(i32::MAX));
}

#[test]
fn concrete_scenario() {
    let mut t = BinarySearchTree::new();
    let values = vec![10, 5, 20, 3, 7, 15, 25];
    for value in values {
        t.insert(value);
    }
    assert!(t.search(7));
    assert!(!t.search(30));
    assert_eq!(t.inorder_traversal(), vec![3, 5, 7, 10, 15, 20, 25]);
    assert_eq!(t.height(), 3);
}

#[test]
fn duplicate_insert_changes_nothing() {
    let mut once = BinarySearchTree::new();
    let mut twice = BinarySearchTree::new();
    for value in [8, 3, 12, 1, 6] {
        once.insert(value);
        twice.insert(value);
    }
    twice.insert(3);
    twice.insert(8);
    twice.insert(6);
    assert_eq!(once.inorder_traversal(), twice.inorder_traversal());
    assert_eq!(once.height(), twice.height());
}

#[test]
fn traversal_sorts_distinct_keys() {
    let mut t = BinarySearchTree::new();
    for value in [4, -9, 2, 4, 0, 17, -9, 2, 100, -1] {
        t.insert(value);
    }
    assert_eq!(t.inorder_traversal(), vec![-9, -1, 0, 2, 4, 17, 100]);
}

#[test]
fn search_finds_inserted_keys_only() {
    let mut t = BinarySearchTree::new();
    let present = [13, -4, 0, 99, 7];
    for value in present {
        t.insert(value);
    }
    for value in present {
        assert!(t.search(value));
    }
    for value in [1, -13, 98, 100, 8, i32::MIN, i32::MAX] {
        assert!(!t.search(value));
    }
}

#[test]
fn increasing_insertions_make_height_n() {
    let mut t = BinarySearchTree::new();
    for value in 1..=6 {
        t.insert(value);
    }
    assert_eq!(t.height(), 6);
}

#[test]
fn decreasing_insertions_make_height_n() {
    let mut t = BinarySearchTree::new();
    for value in (1..=6).rev() {
        t.insert(value);
    }
    assert_eq!(t.height(), 6);
}

#[test]
fn height_stays_between_one_and_n() {
    let mut t = BinarySearchTree::new();
    let values = [50, 25, 75, 12, 37, 62, 87, 6, 18];
    for (i, value) in values.iter().enumerate() {
        t.insert(*value);
        let n = (i + 1) as i32;
        let h = t.height();
        assert!(1 <= h && h <= n);
    }
    assert_eq!(t.height(), 4);
}

#[test]
fn single_key_tree() {
    let mut t = BinarySearchTree::new();
    t.insert(5);
    assert_eq!(t.height(), 1);
    assert_eq!(t.inorder_traversal(), vec![5]);
    assert!(t.search(5));
    assert!(!t.search(4));
    assert!(!t.search(6));
}

#[test]
fn extreme_keys() {
    let mut t = BinarySearchTree::new();
    t.insert(i32::MAX);
    t.insert(i32::MIN);
    t.insert(0);
    assert_eq!(t.inorder_traversal(), vec![i32::MIN, 0, i32::MAX]);
    assert!(t.search(i32::MIN));
    assert!(t.search(i32::MAX));
    assert_eq!(t.height(), 3);
}

#[test]
fn node_leaf_behaviour() {
    let n = Node::new(9);
    assert_eq!(n.height(), 1);
    assert!(n.search(9));
    assert!(!n.search(8));
    let mut out = Vec::new();
    n.inorder_traversal(&mut out);
    assert_eq!(out, vec![9]);
}

#[test]
fn node_insert_and_traverse() {
    let mut n = Node::new(10);
    n.insert(4);
    n.insert(16);
    n.insert(10);
    n.insert(4);
    assert!(n.search(4));
    assert!(n.search(16));
    assert!(!n.search(5));
    let mut out = Vec::new();
    n.inorder_traversal(&mut out);
    assert_eq!(out, vec![4, 10, 16]);
    assert_eq!(n.height(), 2);
}

#[test]
fn traversal_appends_to_given_vector() {
    let mut n = Node::new(2);
    n.insert(1);
    n.insert(3);
    let mut out = vec![-100];
    n.inorder_traversal(&mut out);
    assert_eq!(out, vec![-100, 1, 2, 3]);
}
