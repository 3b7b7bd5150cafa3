use binsearchtree::ltree::LTree;
use binsearchtree::rotate_l;
use binsearchtree::rotate_r;
use binsearchtree::Tree;

fn collect_pairs(tree: &Tree<i32, i32>) -> Vec<(i32, i32)> {
    let mut out = Vec::new();
    let mut it = tree.iter();
    while let Some((&k, &v)) = it.next() {
        out.push((k, v));
    }
    out
}

#[test]
fn scenario_seven_keys_in_order() {
    let mut tree: Tree<i32, i32> = Tree::new();
    for &k in &[5, 3, 1, 2, 7, 6, 8] {
        assert_eq!(tree.insert(k, k * 10), None);
    }
    assert_eq!(
        collect_pairs(&tree),
        vec![(1, 10), (2, 20), (3, 30), (5, 50), (6, 60), (7, 70), (8, 80)]
    );
    assert_eq!(tree.get(&2), Some(&20));
    assert_eq!(tree.len(), 7);
}

#[test]
fn scenario_seven_keys_arena() {
    let mut tree: LTree<i32, i32> = LTree::new();
    for &k in &[5, 3, 1, 2, 7, 6, 8] {
        assert_eq!(tree.insert(k, k * 10), None);
    }
    for &k in &[1, 2, 3, 5, 6, 7, 8] {
        assert_eq!(tree.get(&k), Some(&(k * 10)));
    }
    assert_eq!(tree.get(&4), None);
}

#[test]
fn scenario_duplicate_key_updates() {
    let mut tree = Tree::new();
    assert_eq!(tree.insert(1, "a"), None);
    assert_eq!(tree.insert(1, "b"), Some("a"));
    assert_eq!(tree.get(&1), Some(&"b"));
    assert_eq!(tree.len(), 1);
}

#[test]
fn scenario_duplicate_key_updates_arena() {
    let mut tree = LTree::new();
    assert_eq!(tree.insert(1, "a"), None);
    assert_eq!(tree.insert(1, "b"), Some("a"));
    assert_eq!(tree.get(&1), Some(&"b"));
}

#[test]
fn empty_tree_behaviour() {
    let tree: Tree<u64, u64> = Tree::new();
    assert!(tree.is_empty());
    assert_eq!(tree.len(), 0);
    assert_eq!(tree.get(&3), None);
    let mut it = tree.iter();
    assert!(it.next().is_none());

    let arena: LTree<u64, u64> = LTree::new();
    assert_eq!(arena.get(&3), None);
}

#[test]
fn nonempty_after_insert() {
    let mut tree: Tree<u64, u64> = Tree::new();
    assert!(tree.is_empty());
    tree.insert(3, 4);
    assert!(!tree.is_empty());
    assert_eq!(tree.len(), 1);
}

#[test]
fn nodes_and_edges_projection() {
    let mut tree: Tree<u64, u64> = Tree::new();
    for &k in &[4, 2, 6, 1, 3] {
        tree.insert(k, k + 100);
    }
    assert_eq!(
        tree.nodes(),
        vec![(1, 101), (2, 102), (3, 103), (4, 104), (6, 106)]
    );
    assert_eq!(tree.edges(), vec![(2, 1), (2, 3), (4, 2), (4, 6)]);
}

#[test]
fn rotation_keeps_in_order_sequence() {
    let mut tree: Tree<i32, i32> = Tree::new();
    for &k in &[4, 2, 6, 1, 3, 5, 7] {
        tree.insert(k, -k);
    }
    let before = collect_pairs(&tree);
    rotate_r(&mut tree.0);
    assert_eq!(collect_pairs(&tree), before);
    rotate_l(&mut tree.0);
    assert_eq!(collect_pairs(&tree), before);
    for &k in &[1, 2, 3, 4, 5, 6, 7] {
        assert_eq!(tree.get(&k), Some(&-k));
    }
}

#[test]
fn rotation_without_pivot_is_noop() {
    // a root without a left child is left unchanged by a right rotation
    let mut tree: Tree<i32, i32> = Tree::with(1, 10);
    tree.insert(2, 20);
    let before = collect_pairs(&tree);
    rotate_r(&mut tree.0);
    assert_eq!(collect_pairs(&tree), before);
    assert_eq!(tree.get(&1), Some(&10));
    // and an empty tree tolerates both rotations
    let mut empty: Tree<i32, i32> = Tree::new();
    rotate_r(&mut empty.0);
    rotate_l(&mut empty.0);
    assert!(empty.is_empty());
}

#[test]
fn sized_tree_counts_distinct_keys() {
    let mut tree: binsearchtree::tree::Tree<u64, char> = binsearchtree::tree::Tree::new();
    assert_eq!(tree.insert(10, 'x'), None);
    assert_eq!(tree.insert(5, 'y'), None);
    assert_eq!(tree.insert(10, 'z'), Some('x'));
    assert_eq!(tree.get(&10), Some(&'z'));
    assert_eq!(tree.get(&5), Some(&'y'));
    assert_eq!(tree.get(&7), None);
}

#[test]
fn string_keys_sort_lexicographically() {
    let mut tree: Tree<String, u32> = Tree::new();
    for (k, v) in [("dog", 1u32), ("cat", 2), ("ant", 3), ("anteater", 4), ("dot", 5)] {
        tree.insert(String::from(k), v);
    }
    let mut it = tree.iter();
    let mut seen: Vec<(String, u32)> = Vec::new();
    while let Some((k, &v)) = it.next() {
        seen.push((k.clone(), v));
    }
    assert_eq!(
        seen,
        vec![
            (String::from("ant"), 3),
            (String::from("anteater"), 4),
            (String::from("cat"), 2),
            (String::from("dog"), 1),
            (String::from("dot"), 5),
        ]
    );
    assert_eq!(tree.get(&String::from("anteater")), Some(&4));
    assert_eq!(tree.get(&String::from("antelope")), None);
    assert_eq!(tree.len(), 5);
    // a String tree can be probed with a bare str
    assert_eq!(tree.get("cat"), Some(&2));
    assert_eq!(tree.get("ca"), None);
    assert_eq!(tree.get("cats"), None);
}

#[test]
fn string_keys_update_in_arena() {
    let mut tree: LTree<String, String> = LTree::new();
    assert_eq!(tree.insert(String::from("pet"), String::from("cat")), None);
    assert_eq!(
        tree.insert(String::from("pet"), String::from("dog")),
        Some(String::from("cat"))
    );
    assert_eq!(tree.get(&String::from("pet")), Some(&String::from("dog")));
    assert_eq!(tree.get("pet"), Some(&String::from("dog")));
    assert_eq!(tree.get("pets"), None);
}

#[test]
fn arena_many_keys_round_trip() {
    let mut tree: LTree<u64, u64> = LTree::new();
    let mut k: u64 = 1;
    // a pseudo-random but fixed insertion order
    for _ in 0..97 {
        k = (k * 37 + 11) % 101;
        tree.insert(k, k * 2);
    }
    let mut probe: u64 = 1;
    for _ in 0..97 {
        probe = (probe * 37 + 11) % 101;
        assert_eq!(tree.get(&probe), Some(&(probe * 2)));
    }
}
