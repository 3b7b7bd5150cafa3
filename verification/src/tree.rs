//! A binary search tree that carries its size along, so that asking for
//! the number of pairs costs nothing.

use crate::key::KeyRef;
use crate::key::TreeKey;
use crate::node::node_inserted;
use crate::node::Node;
use vstd::prelude::*;

verus! {

/// A binary search tree with a cached pair count, kept exactly equal to
/// the number of distinct keys held.
#[derive(Debug)]
pub struct Tree<K: TreeKey, V> {
    /// The number of key/value pairs in the tree.
    size: usize,
    /// The root node, absent for an empty tree.
    root: Option<Node<K, V>>,
}

impl<K: TreeKey, V> View for Tree<K, V> {
    type V = Map<K::V, V>;

    /// A tree is viewed as the map from its keys to its values.
    closed spec fn view(&self) -> Map<K::V, V> {
        match self.root {
            None => Map::empty(),
            Some(n) => n.as_map(),
        }
    }
}

impl<K: TreeKey, V> Tree<K, V> {
    /// The root node of the tree, if any.
    pub closed spec fn root_node(self) -> Option<Node<K, V>> {
        self.root
    }

    /// The tree orders its keys, and the cached size equals the number of
    /// distinct keys held — the size invariant.
    pub closed spec fn wf(self) -> bool {
        &&& (match self.root {
            None => true,
            Some(n) => n.wf(),
        })
        &&& self.size == self@.dom().len()
    }
}

impl<K: TreeKey, V> Default for Tree<K, V> {
    /// An empty tree of size zero.
    fn default() -> (t: Self)
        ensures
            t.wf(),
            t@ == Map::<K::V, V>::empty(),
            t.root_node() is None,
    {
        let t = Tree { size: 0, root: None };
        proof {
            assert(t@.dom() =~= Set::<K::V>::empty());
        }
        t
    }
}

impl<K: TreeKey, V> Tree<K, V> {
    /// Creates an empty `Tree`.
    pub fn new() -> (t: Tree<K, V>)
        ensures
            t.wf(),
            t@ == Map::<K::V, V>::empty(),
            t.root_node() is None,
    {
        Tree::default()
    }

    /// Inserts a key/value pair, returning the value previously held under
    /// `key`, if any; the cached size grows exactly on fresh keys.
    pub fn insert(&mut self, key: K, value: V) -> (prev: Option<V>)
        requires
            old(self).wf(),
            old(self)@.dom().len() < usize::MAX,
        ensures
            final(self).wf(),
            final(self)@ == old(self)@.insert(key@, value),
            final(self).root_node() == Some(
                node_inserted(
                    match old(self).root_node() {
                        None => Node { inner: None },
                        Some(n) => n,
                    },
                    key,
                    value,
                ),
            ),
            prev == (if old(self)@.dom().contains(key@) {
                Some(old(self)@[key@])
            } else {
                None::<V>
            }),
    {
        match &mut self.root {
            None => {
                self.root = Some(Node::new(key, value));
                self.size = self.size + 1;
                proof {
                    assert(old(self)@.dom() =~= Set::<K::V>::empty());
                    assert(self@.dom() =~= Set::<K::V>::empty().insert(key@));
                    assert(self.root == Some(
                        node_inserted(Node { inner: None::<Box<crate::node::InnerNode<K, V>>> }, key, value),
                    ));
                }
                None
            }
            Some(node) => {
                proof {
                    crate::node::lemma_node_size(*node);
                }
                let prev = node.insert(key, value);
                if prev.is_none() {
                    self.size = self.size + 1;
                }
                proof {
                    assert(self@.dom() =~= old(self)@.dom().insert(key@));
                    if old(self)@.dom().contains(key@) {
                        assert(old(self)@.dom().insert(key@) =~= old(self)@.dom());
                    }
                    assert(self.root == Some(
                        node_inserted(old(self).root_node().unwrap(), key, value),
                    ));
                }
                prev
            }
        }
    }

    /// Returns a reference to the value stored under the key the probe
    /// stands for, if any.
    pub fn get<Q: KeyRef<K> + ?Sized>(&self, key: &Q) -> (r: Option<&V>)
        requires
            self.wf(),
        ensures
            r == (if self@.dom().contains(key@) {
                Some(&self@[key@])
            } else {
                None::<&V>
            }),
    {
        match &self.root {
            None => None,
            Some(node) => node.get(key),
        }
    }
}

} // verus!
