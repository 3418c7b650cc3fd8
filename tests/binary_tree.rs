use lru::binary_tree::Tree;

#[test]
fn test_build_tree() {
    let mut tree = Tree::new();
    tree.insert(8);
    tree.insert(10);
    tree.insert(3);
    tree.insert(1);
    tree.insert(6);
    tree.insert(4);

    assert_eq!(tree.root.is_some(), true);
    assert_eq!(tree.root.as_ref().unwrap().value, 8);
    assert_eq!(tree.root.as_ref().unwrap().left.as_ref().unwrap().value, 3);
    assert_eq!(tree.root.as_ref().unwrap().left.as_ref().unwrap().left.as_ref().unwrap().value, 1);
}

#[test]
fn duplicate_insert_is_ignored() {
    let mut tree = Tree::new();
    tree.insert(5);
    tree.insert(5);
    tree.insert(7);
    let root = tree.root.as_ref().unwrap();
    assert_eq!(root.value, 5);
    assert!(root.left.is_none());
    assert_eq!(root.right.as_ref().unwrap().value, 7);
    assert!(root.right.as_ref().unwrap().right.is_none());
}
