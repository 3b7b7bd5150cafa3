use binsearchtree::node::InnerNode;
use binsearchtree::node::Node;

#[test]
fn node_eq_pass() {
    let node_a: Node<String, String> = Node::new("cat".into(), "meow".into());
    let node_b: Node<String, String> = Node::new("cat".into(), "meow".into());
    assert_eq!(node_a, node_b);
}

#[test]
#[should_panic]
fn node_eq_fail() {
    let node_a: Node<String, String> = Node::new("cat".into(), "meow".into());
    let node_b: Node<String, String> = Node::new("dog".into(), "bark".into());
    assert_eq!(node_a, node_b);
}

#[test]
fn node_neq_pass() {
    let node_a: Node<String, String> = Node::new("cat".into(), "meow".into());
    let node_b: Node<String, String> = Node::new("dog".into(), "bark".into());
    assert_ne!(node_a, node_b);
}

#[test]
#[should_panic]
fn node_neq_fail() {
    let node_a: Node<String, String> = Node::new("cat".into(), "meow".into());
    let node_b: Node<String, String> = Node::new("cat".into(), "meow".into());
    assert_ne!(node_a, node_b);
}

#[test]
fn node_insert_pass() {
    let mut node_root = Node::new(1, 'b');
    node_root.insert(0, 'a');
    node_root.insert(2, 'c');

    let node_root_1 = Node {
        inner: Some(Box::new(InnerNode {
            left: Node::new(0, 'a'),
            right: Node::new(2, 'c'),
            key: 1,
            value: 'b',
        })),
    };
    assert_eq!(node_root, node_root_1);
    assert_eq!(node_root.len(), 3);
}

#[test]
fn node_insert_duplicate_pass() {
    let mut node_root = Node::new(0, 'a');
    assert_eq!(node_root.insert(1, 'b'), None);
    assert_eq!(node_root.insert(1, 'b'), Some('b'));
}

#[test]
fn node_test_get_pass() {
    let mut node_root = Node::new(1, 'b');
    node_root.insert(0, 'a');
    node_root.insert(2, 'c');
    assert_eq!(node_root.get(&0), Some(&'a'));
    assert_eq!(node_root.get(&1), Some(&'b'));
    assert_eq!(node_root.get(&2), Some(&'c'));
}
