//! A self-contained binary-search-tree node: the node type itself encodes
//! emptiness, so a tree is just its root node.

use crate::key::lemma_lt_ne;
use crate::key::KeyRef;
use crate::key::TreeKey;
use core::cmp::Ordering;
use vstd::prelude::*;

verus! {

/// A marker for types usable as key/value material.
pub trait KV: Sized + PartialEq {

}

/// A node in a binary search tree; an empty inner part means an empty
/// subtree.
#[derive(Debug, PartialEq)]
pub struct Node<K: TreeKey, V> {
    /// The payload and children, absent for an empty subtree.
    pub inner: Option<Box<InnerNode<K, V>>>,
}

/// The payload of a non-empty [`Node`]: a key, a value and two subtrees.
#[derive(Debug, PartialEq)]
pub struct InnerNode<K: TreeKey, V> {
    /// This node's key.
    pub key: K,
    /// This node's value.
    pub value: V,
    /// Left child: all keys below it are smaller than `key`.
    pub left: Node<K, V>,
    /// Right child: all keys below it are greater than `key`.
    pub right: Node<K, V>,
}

impl<K: TreeKey, V> Node<K, V> {
    /// The map held by the subtree rooted at this node.
    pub closed spec fn as_map(self) -> Map<K::V, V>
        decreases self,
    {
        match self.inner {
            None => Map::empty(),
            Some(b) => b.left.as_map().union_prefer_right(b.right.as_map()).insert(
                b.key@,
                b.value,
            ),
        }
    }

    /// Every key to the left is strictly smaller than the node's key and
    /// every key to the right strictly greater, recursively.
    pub closed spec fn wf(self) -> bool
        decreases self,
    {
        match self.inner {
            None => true,
            Some(b) => {
                &&& (forall|e: K::V| #[trigger] b.left.as_map().dom().contains(e) ==> K::lt(
                    e,
                    b.key@,
                ))
                &&& (forall|e: K::V| #[trigger] b.right.as_map().dom().contains(e) ==> K::lt(
                    b.key@,
                    e,
                ))
                &&& b.left.wf()
                &&& b.right.wf()
            },
        }
    }
}

/// The exact subtree an insert produces: descend by comparison and turn
/// the empty frontier subtree into a leaf; an equal key only swaps that
/// node's value in place. This pins the shape of the tree, not merely its
/// map.
pub open spec fn node_inserted<K: TreeKey, V>(n: Node<K, V>, key: K, value: V) -> Node<K, V>
    decreases n,
{
    match n.inner {
        None => Node {
            inner: Some(
                Box::new(
                    InnerNode {
                        key,
                        value,
                        left: Node { inner: None::<Box<InnerNode<K, V>>> },
                        right: Node { inner: None::<Box<InnerNode<K, V>>> },
                    },
                ),
            ),
        },
        Some(b) => if key@ == b.key@ {
            Node {
                inner: Some(
                    Box::new(InnerNode { key: b.key, value, left: b.left, right: b.right }),
                ),
            }
        } else if K::lt(key@, b.key@) {
            Node {
                inner: Some(
                    Box::new(
                        InnerNode {
                            key: b.key,
                            value: b.value,
                            left: node_inserted(b.left, key, value),
                            right: b.right,
                        },
                    ),
                ),
            }
        } else {
            Node {
                inner: Some(
                    Box::new(
                        InnerNode {
                            key: b.key,
                            value: b.value,
                            left: b.left,
                            right: node_inserted(b.right, key, value),
                        },
                    ),
                ),
            }
        },
    }
}

impl<K: TreeKey, V> Default for Node<K, V> {
    /// An empty subtree.
    fn default() -> (n: Self)
        ensures
            n.wf(),
            n.as_map() == Map::<K::V, V>::empty(),
            n == (Node { inner: None::<Box<InnerNode<K, V>>> }),
    {
        let n = Node { inner: None };
        proof {
            assert(n.as_map() =~= Map::<K::V, V>::empty());
        }
        n
    }
}

impl<K: TreeKey, V> Node<K, V> {
    /// Make a subtree holding exactly `k` and `v`.
    pub fn new(k: K, v: V) -> (n: Node<K, V>)
        ensures
            n.wf(),
            n.as_map() == Map::<K::V, V>::empty().insert(k@, v),
            n == (Node {
                inner: Some(
                    Box::new(
                        InnerNode {
                            key: k,
                            value: v,
                            left: Node { inner: None::<Box<InnerNode<K, V>>> },
                            right: Node { inner: None::<Box<InnerNode<K, V>>> },
                        },
                    ),
                ),
            }),
            n.inner is Some,
    {
        let n = Node {
            inner: Some(
                Box::new(
                    InnerNode { key: k, value: v, left: Node::default(), right: Node::default() },
                ),
            ),
        };
        proof {
            assert(n.as_map() =~= Map::<K::V, V>::empty().insert(k@, v));
        }
        n
    }

    /// Insert `key`/`value` below this node, returning the value
    /// previously held under `key`, if any. An empty subtree becomes a
    /// leaf.
    pub fn insert(&mut self, key: K, value: V) -> (prev: Option<V>)
        requires
            old(self).wf(),
        ensures
            final(self).wf(),
            final(self).as_map() == old(self).as_map().insert(key@, value),
            *final(self) == node_inserted(*old(self), key, value),
            prev == (if old(self).as_map().dom().contains(key@) {
                Some(old(self).as_map()[key@])
            } else {
                None::<V>
            }),
        decreases *old(self),
    {
        match &mut self.inner {
            None => {
                *self = Self::new(key, value);
                proof {
                    assert(*self == node_inserted(*old(self), key, value));
                }
                None
            }
            Some(b) => {
                match b.key.cmp_with(&key) {
                    Ordering::Greater => {
                        proof {
                            lemma_absent_right(*old(self), key@);
                        }
                        let prev = b.left.insert(key, value);
                        proof {
                            lemma_lt_ne::<K>(key@, b.key@);
                            assert(self.as_map() =~= old(self).as_map().insert(key@, value));
                            assert(*self == node_inserted(*old(self), key, value));
                        }
                        prev
                    }
                    Ordering::Equal => {
                        let mut tmp = value;
                        core::mem::swap(&mut b.value, &mut tmp);
                        proof {
                            assert(old(self).as_map().dom().contains(key@));
                            assert(old(self).as_map()[key@] == old(self).inner.unwrap().value);
                            assert(self.as_map() =~= old(self).as_map().insert(key@, value));
                            assert(*self == node_inserted(*old(self), key, value));
                        }
                        Some(tmp)
                    }
                    Ordering::Less => {
                        proof {
                            lemma_absent_left(*old(self), key@);
                        }
                        let prev = b.right.insert(key, value);
                        proof {
                            lemma_lt_ne::<K>(b.key@, key@);
                            K::lt_total(key@, b.key@);
                            assert(self.as_map() =~= old(self).as_map().insert(key@, value));
                            assert(*self == node_inserted(*old(self), key, value));
                        }
                        prev
                    }
                }
            }
        }
    }

    /// Look up the key the probe stands for below this node.
    pub fn get<Q: KeyRef<K> + ?Sized>(&self, key: &Q) -> (r: Option<&V>)
        requires
            self.wf(),
        ensures
            r == (if self.as_map().dom().contains(key@) {
                Some(&self.as_map()[key@])
            } else {
                None::<&V>
            }),
        decreases *self,
    {
        match &self.inner {
            None => {
                proof {
                    assert(self.as_map().dom() =~= Set::<K::V>::empty());
                }
                None
            }
            Some(b) => {
                match key.cmp_key(&b.key) {
                    Ordering::Less => {
                        proof {
                            lemma_absent_right(*self, key@);
                            lemma_lt_ne::<K>(key@, b.key@);
                        }
                        b.left.get(key)
                    }
                    Ordering::Equal => {
                        proof {
                            assert(self.as_map().dom().contains(key@));
                        }
                        Some(&b.value)
                    }
                    Ordering::Greater => {
                        proof {
                            lemma_absent_left(*self, key@);
                            lemma_lt_ne::<K>(b.key@, key@);
                        }
                        b.right.get(key)
                    }
                }
            }
        }
    }

    /// The number of key/value pairs below this node.
    pub fn len(&self) -> (n: usize)
        requires
            self.wf(),
            self.as_map().dom().len() <= usize::MAX,
        ensures
            n == self.as_map().dom().len(),
        decreases *self,
    {
        match &self.inner {
            None => {
                proof {
                    assert(self.as_map().dom() =~= Set::<K::V>::empty());
                }
                0
            }
            Some(b) => {
                proof {
                    lemma_node_size(*self);
                }
                let a = b.left.len();
                let c = b.right.len();
                a + 1 + c
            }
        }
    }
}

/// A key smaller than the node's key cannot live in the right subtree,
/// and is found on the left if it is present at all.
proof fn lemma_absent_right<K: TreeKey, V>(n: Node<K, V>, key: K::V)
    requires
        n.wf(),
        n.inner is Some,
        K::lt(key, n.inner.unwrap().key@),
    ensures
        !n.inner.unwrap().right.as_map().dom().contains(key),
        n.as_map().dom().contains(key) == n.inner.unwrap().left.as_map().dom().contains(key),
        n.inner.unwrap().left.as_map().dom().contains(key) ==> n.as_map()[key]
            == n.inner.unwrap().left.as_map()[key],
{
    let b = n.inner.unwrap();
    if b.right.as_map().dom().contains(key) {
        K::lt_total(key, b.key@);
    }
    lemma_lt_ne::<K>(key, b.key@);
}

/// A key greater than the node's key cannot live in the left subtree,
/// and is found on the right if it is present at all.
proof fn lemma_absent_left<K: TreeKey, V>(n: Node<K, V>, key: K::V)
    requires
        n.wf(),
        n.inner is Some,
        K::lt(n.inner.unwrap().key@, key),
    ensures
        !n.inner.unwrap().left.as_map().dom().contains(key),
        n.as_map().dom().contains(key) == n.inner.unwrap().right.as_map().dom().contains(key),
        n.inner.unwrap().right.as_map().dom().contains(key) ==> n.as_map()[key]
            == n.inner.unwrap().right.as_map()[key],
{
    let b = n.inner.unwrap();
    if b.left.as_map().dom().contains(key) {
        K::lt_total(b.key@, key);
    }
    lemma_lt_ne::<K>(b.key@, key);
}

/// The map of a well-formed node is finite, and one pair larger than its
/// two child maps together.
pub(crate) proof fn lemma_node_size<K: TreeKey, V>(n: Node<K, V>)
    requires
        n.wf(),
    ensures
        n.as_map().dom().finite(),
        n.inner is None ==> n.as_map().dom().len() == 0,
        n.inner is Some ==> n.as_map().dom().len() == n.inner.unwrap().left.as_map().dom().len()
            + n.inner.unwrap().right.as_map().dom().len() + 1,
    decreases n,
{
    match n.inner {
        None => {
            assert(n.as_map().dom() =~= Set::<K::V>::empty());
        }
        Some(b) => {
            lemma_node_size(b.left);
            lemma_node_size(b.right);
            let dl = b.left.as_map().dom();
            let dr = b.right.as_map().dom();
            assert forall|e: K::V| !(dl.contains(e) && dr.contains(e)) by {
                if dl.contains(e) && dr.contains(e) {
                    K::lt_total(e, b.key@);
                }
            }
            assert(dl.disjoint(dr));
            vstd::set_lib::lemma_set_disjoint_lens(dl, dr);
            assert(n.as_map().dom() =~= dl.union(dr).insert(b.key@));
            assert(!dl.union(dr).contains(b.key@)) by {
                if dl.contains(b.key@) {
                    lemma_lt_ne::<K>(b.key@, b.key@);
                }
                if dr.contains(b.key@) {
                    lemma_lt_ne::<K>(b.key@, b.key@);
                }
            }
        }
    }
}

} // verus!
