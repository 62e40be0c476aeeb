use std::rc::Rc;
use katas::pointers::{BinaryTreeNode, Package, SharedCounter};

#[test]
fn test_list_dependencies() {
    let shared_lib = Package::new("shared-lib");
    let utils = Package::with_dependencies("utils", vec![Rc::clone(&shared_lib)]);
    let core = Package::with_dependencies("core", vec![Rc::clone(&shared_lib)]);
    let app = Package::with_dependencies("app", vec![utils, core]);

    let deps = Package::list_dependencies(app);

    assert!(deps.contains(&"utils".to_string()));
    assert!(deps.contains(&"core".to_string()));
    assert_eq!(deps.iter().filter(|d| *d == "shared-lib").count(), 2);
}

#[test]
fn test_list_dependencies_order() {
    let leaf = Package::new("leaf");
    let mid = Package::with_dependencies("mid", vec![Rc::clone(&leaf)]);
    let root = Package::with_dependencies("root", vec![mid, leaf]);
    let deps = Package::list_dependencies(root);
    assert_eq!(deps, vec!["mid".to_string(), "leaf".to_string(), "leaf".to_string()]);
}

#[test]
fn test_tree_sum() {
    let left = BinaryTreeNode::new(2);
    let right = BinaryTreeNode::new(3);
    let root = BinaryTreeNode::with_children(1, left, right);
    assert_eq!(root.sum(), 6);
}

#[test]
fn test_tree_sum_negative() {
    let left = BinaryTreeNode::with_children(-5, BinaryTreeNode::new(10), BinaryTreeNode::new(-10));
    let right = BinaryTreeNode::new(4);
    let root = BinaryTreeNode::with_children(1, left, right);
    assert_eq!(root.sum(), 0);
}

#[test]
fn test_cell_counter() {
    let mut c = SharedCounter::new();
    assert_eq!(c.get(), 0);
    c.increment();
    c.increment();
    assert_eq!(c.get(), 2);
}
