use binsearchtree::rotate_l;
use binsearchtree::rotate_r;
use binsearchtree::Node;
use binsearchtree::Tree;

#[test]
fn lib_tree_eq_pass() {
    let tree_a = Tree::with(String::from("cat"), String::from("meow"));
    let tree_b = Tree::with(String::from("cat"), String::from("meow"));
    assert_eq!(tree_a, tree_b);
}

#[test]
#[should_panic]
fn lib_tree_eq_fail() {
    let tree_a = Tree::with(String::from("cat"), String::from("meow"));
    let tree_b = Tree::with(String::from("dog"), String::from("bark"));
    assert_eq!(tree_a, tree_b);
}

#[test]
fn lib_tree_neq_pass() {
    let tree_a = Tree::with(String::from("cat"), String::from("meow"));
    let tree_b = Tree::with(String::from("dog"), String::from("bark"));
    assert_ne!(tree_a, tree_b);
}

#[test]
#[should_panic]
fn lib_tree_neq_fail() {
    let tree_a = Tree::with(String::from("cat"), String::from("meow"));
    let tree_b = Tree::with(String::from("cat"), String::from("meow"));
    assert_ne!(tree_a, tree_b);
}

#[test]
fn lib_tree_insert_pass() {
    let mut tree_root = Tree::with(1, '1');
    tree_root.insert(0, '0');
    tree_root.insert(2, '2');
    let tree_root_1 = Tree(Some(Box::new(Node {
        k: 1,
        v: '1',
        l: Some(Box::new(Node::new(0, '0'))),
        r: Some(Box::new(Node::new(2, '2'))),
    })));
    assert_eq!(tree_root, tree_root_1);
    assert_eq!(tree_root.len(), 3);
}

#[test]
fn lib_tree_insert_duplicate_pass() {
    let mut tree_root = Tree::with(0, '0');
    assert_eq!(tree_root.insert(1, '1'), None);
    assert_eq!(tree_root.insert(1, '1'), Some('1'));
}

#[test]
fn lib_tree_test_get_pass() {
    let mut tree_root = Tree::with(1, '1');
    tree_root.insert(0, '0');
    tree_root.insert(2, '2');
    assert_eq!(tree_root.get(&0), Some(&'0'));
    assert_eq!(tree_root.get(&1), Some(&'1'));
    assert_eq!(tree_root.get(&2), Some(&'2'));
}

#[test]
fn tree_test_iter_pass() {
    let mut tree: Tree<u8, ()> = Tree::new();
    for _ in 0..100 {
        tree.insert(rand::random(), ());
    }
    let mut iter = tree.iter();
    let mut last = *iter.next().unwrap().0;
    while let Some((&k, _)) = iter.next() {
        assert!(k > last);
        last = k;
    }
}

#[test]
fn node_rotate_r_pass() {
    let mut tree = Tree::with(5, 5);
    tree.insert(7, 7);
    tree.insert(3, 3);
    tree.insert(2, 2);
    tree.insert(4, 4);
    rotate_r(&mut tree.0);
}

#[test]
fn node_rotate_l_pass() {
    let mut tree = Tree::with(3, 3);
    tree.insert(2, 2);
    tree.insert(5, 5);
    tree.insert(4, 4);
    tree.insert(7, 7);
    rotate_l(&mut tree.0);
}

#[test]
fn node_rotate_roundtrip_pass() {
    let mut tree = Tree::with(3, 3);
    tree.insert(2, 2);
    tree.insert(5, 5);
    tree.insert(4, 4);
    tree.insert(7, 7);
    let tree_0 = tree.clone();
    rotate_l(&mut tree.0);
    let tree_1 = tree.clone();
    rotate_r(&mut tree.0);
    let tree_2 = tree;

    assert_ne!(tree_0, tree_1);
    assert_ne!(tree_1, tree_2);
    assert_eq!(tree_0, tree_2);
}
