use binsearchtree::ltree::LTree;

#[test]
fn ltree_tree_eq_pass() {
    let tree_a = LTree::with(String::from("cat"), String::from("meow"));
    let tree_b = LTree::with(String::from("cat"), String::from("meow"));
    assert!(tree_a == tree_b);
}

#[test]
#[should_panic]
fn ltree_tree_eq_fail() {
    let tree_a = LTree::with(String::from("cat"), String::from("meow"));
    let tree_b = LTree::with(String::from("dog"), String::from("bark"));
    assert!(tree_a == tree_b);
}

#[test]
fn ltree_tree_neq_pass() {
    let tree_a = LTree::with(String::from("cat"), String::from("meow"));
    let tree_b = LTree::with(String::from("dog"), String::from("bark"));
    assert!(tree_a != tree_b);
}

#[test]
#[should_panic]
fn ltree_tree_neq_fail() {
    let tree_a = LTree::with(String::from("cat"), String::from("meow"));
    let tree_b = LTree::with(String::from("cat"), String::from("meow"));
    assert!(tree_a != tree_b);
}

#[test]
fn ltree_tree_insert_pass() {
    let mut tree = LTree::with(1, '1');
    tree.insert(0, '0');
    tree.insert(2, '2');
}

#[test]
fn ltree_tree_insert_duplicate_pass() {
    let mut tree = LTree::with(0, '0');
    assert_eq!(tree.insert(1, '1'), None);
    assert_eq!(tree.insert(1, '1'), Some('1'));
}

#[test]
fn ltree_tree_test_get_pass() {
    let mut tree_root = LTree::with(1, '1');
    tree_root.insert(0, '0');
    tree_root.insert(2, '2');
    assert_eq!(tree_root.get(&0), Some(&'0'));
    assert_eq!(tree_root.get(&1), Some(&'1'));
    assert_eq!(tree_root.get(&2), Some(&'2'));
}
