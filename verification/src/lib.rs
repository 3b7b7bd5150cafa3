//! Ordered key/value maps backed by binary search trees.
//!
//! The crate offers several variants of the same idea: a boxed recursive
//! tree with an explicit-stack in-order iterator and local rotations, an
//! arena-indexed tree whose nodes live in a slot pool with a free list, and
//! a size-tracking wrapper. Keys supply their own strict total order through
//! the [`key::TreeKey`] trait; every tree is modelled as a `Map` from
//! abstract key values to values, and the operations are specified against
//! that model.

pub mod key;
pub mod ltree;
pub mod node;
pub mod tree;

use crate::key::lemma_lt_ne;
use crate::key::KeyRef;
use crate::key::TreeKey;
use core::cmp::Ordering;
use vstd::pervasive::cloned;
use vstd::prelude::*;

verus! {

/// A binary search tree holding one key/value pair per node.
///
/// The single field is the optional root node; an empty tree has none.
#[derive(Debug, PartialEq)]
pub struct Tree<K, V>(pub Option<Box<Node<K, V>>>);

/// A node in a binary search tree.
#[derive(Debug, PartialEq)]
pub struct Node<K, V> {
    /// This node's key.
    pub k: K,
    /// This node's value.
    pub v: V,
    /// Left child: all keys below it are smaller than `k`.
    pub l: Option<Box<Node<K, V>>>,
    /// Right child: all keys below it are greater than `k`.
    pub r: Option<Box<Node<K, V>>>,
}

/// The map held by an optional subtree.
pub closed spec fn sub_map<K: View, V>(o: Option<Box<Node<K, V>>>) -> Map<K::V, V>
    decreases o,
{
    match o {
        None => Map::empty(),
        Some(n) => n.as_map(),
    }
}

/// The exact subtree an insert produces: descend by comparison and attach
/// a fresh leaf as the absent child of the frontier node; an equal key
/// only swaps that node's value in place. This pins the shape of the
/// tree, not merely its map.
pub open spec fn sub_inserted<K: TreeKey, V>(o: Option<Box<Node<K, V>>>, k: K, v: V) -> Option<
    Box<Node<K, V>>,
>
    decreases o,
{
    match o {
        None => Some(
            Box::new(Node { k, v, l: None::<Box<Node<K, V>>>, r: None::<Box<Node<K, V>>> }),
        ),
        Some(n) => Some(Box::new(node_inserted(*n, k, v))),
    }
}

/// The reshaped node after inserting `k`/`v` below `n`.
pub open spec fn node_inserted<K: TreeKey, V>(n: Node<K, V>, k: K, v: V) -> Node<K, V>
    decreases n,
{
    if k@ == n.k@ {
        Node { k: n.k, v, l: n.l, r: n.r }
    } else if K::lt(k@, n.k@) {
        Node { k: n.k, v: n.v, l: sub_inserted(n.l, k, v), r: n.r }
    } else {
        Node { k: n.k, v: n.v, l: n.l, r: sub_inserted(n.r, k, v) }
    }
}

/// The binary-search-tree ordering discipline on an optional subtree.
pub closed spec fn sub_wf<K: TreeKey, V>(o: Option<Box<Node<K, V>>>) -> bool
    decreases o,
{
    match o {
        None => true,
        Some(n) => n.wf(),
    }
}

impl<K: View, V> Node<K, V> {
    /// The map held by the subtree rooted at this node.
    pub closed spec fn as_map(self) -> Map<K::V, V>
        decreases self,
    {
        sub_map(self.l).union_prefer_right(sub_map(self.r)).insert(self.k@, self.v)
    }
}

impl<K: TreeKey, V> Node<K, V> {
    /// Every key to the left is strictly smaller than this node's key and
    /// every key to the right strictly greater, recursively.
    pub closed spec fn wf(self) -> bool
        decreases self,
    {
        &&& (forall|e: K::V| #[trigger] sub_map(self.l).dom().contains(e) ==> K::lt(e, self.k@))
        &&& (forall|e: K::V| #[trigger] sub_map(self.r).dom().contains(e) ==> K::lt(self.k@, e))
        &&& sub_wf(self.l)
        &&& sub_wf(self.r)
    }

    /// Make a leaf node holding `k` and `v`.
    pub fn new(k: K, v: V) -> (n: Self)
        ensures
            n.wf(),
            n.as_map() == Map::<K::V, V>::empty().insert(k@, v),
            n == (Node { k, v, l: None::<Box<Node<K, V>>>, r: None::<Box<Node<K, V>>> }),
    {
        let n = Node { k, v, l: None, r: None };
        proof {
            assert(n.as_map() =~= Map::<K::V, V>::empty().insert(k@, v));
        }
        n
    }

    /// Insert `k`/`v` below this node, returning the value previously held
    /// under `k`, if any.
    pub(crate) fn insert(&mut self, k: K, v: V) -> (prev: Option<V>)
        requires
            old(self).wf(),
        ensures
            final(self).wf(),
            final(self).as_map() == old(self).as_map().insert(k@, v),
            *final(self) == node_inserted(*old(self), k, v),
            prev == (if old(self).as_map().dom().contains(k@) {
                Some(old(self).as_map()[k@])
            } else {
                None::<V>
            }),
        decreases *old(self),
    {
        match self.k.cmp_with(&k) {
            Ordering::Greater => {
                proof {
                    lemma_key_not_in_right(*self, k@);
                }
                let prev = sub_insert(&mut self.l, k, v);
                proof {
                    lemma_lt_ne::<K>(k@, self.k@);
                    assert(self.as_map() =~= old(self).as_map().insert(k@, v));
                    assert(*self == node_inserted(*old(self), k, v));
                }
                prev
            }
            Ordering::Equal => {
                let mut tmp = v;
                core::mem::swap(&mut self.v, &mut tmp);
                proof {
                    assert(old(self).as_map().dom().contains(k@));
                    assert(old(self).as_map()[k@] == old(self).v);
                    assert(self.as_map() =~= old(self).as_map().insert(k@, v));
                    assert(*self == node_inserted(*old(self), k, v));
                }
                Some(tmp)
            }
            Ordering::Less => {
                proof {
                    lemma_key_not_in_left(*self, k@);
                }
                let prev = sub_insert(&mut self.r, k, v);
                proof {
                    lemma_lt_ne::<K>(self.k@, k@);
                    K::lt_total(k@, self.k@);
                    assert(self.as_map() =~= old(self).as_map().insert(k@, v));
                    assert(*self == node_inserted(*old(self), k, v));
                }
                prev
            }
        }
    }

    /// Look up the key `k` stands for below this node.
    pub(crate) fn get<Q: KeyRef<K> + ?Sized>(&self, k: &Q) -> (r: Option<&V>)
        requires
            self.wf(),
        ensures
            r == (if self.as_map().dom().contains(k@) {
                Some(&self.as_map()[k@])
            } else {
                None::<&V>
            }),
        decreases *self,
    {
        match k.cmp_key(&self.k) {
            Ordering::Less => {
                proof {
                    lemma_key_not_in_right(*self, k@);
                    lemma_lt_ne::<K>(k@, self.k@);
                }
                sub_get(&self.l, k)
            }
            Ordering::Equal => {
                proof {
                    assert(self.as_map().dom().contains(k@));
                }
                Some(&self.v)
            }
            Ordering::Greater => {
                proof {
                    lemma_key_not_in_left(*self, k@);
                    lemma_lt_ne::<K>(self.k@, k@);
                }
                sub_get(&self.r, k)
            }
        }
    }

    /// The number of key/value pairs below this node, inclusive.
    pub(crate) fn len(&self) -> (n: usize)
        requires
            self.wf(),
            self.as_map().dom().len() <= usize::MAX,
        ensures
            n == self.as_map().dom().len(),
        decreases *self,
    {
        proof {
            lemma_node_map_size(*self);
        }
        let a = sub_len(&self.l);
        let b = sub_len(&self.r);
        a + 1 + b
    }
}

/// Insert into an optional subtree: attach a fresh leaf if it is empty.
fn sub_insert<K: TreeKey, V>(node: &mut Option<Box<Node<K, V>>>, k: K, v: V) -> (prev: Option<V>)
    requires
        sub_wf(*old(node)),
    ensures
        sub_wf(*final(node)),
        sub_map(*final(node)) == sub_map(*old(node)).insert(k@, v),
        *final(node) == sub_inserted(*old(node), k, v),
        prev == (if sub_map(*old(node)).dom().contains(k@) {
            Some(sub_map(*old(node))[k@])
        } else {
            None::<V>
        }),
    decreases *old(node),
{
    let prev = match node {
        None => {
            *node = Some(Box::new(Node::new(k, v)));
            None
        }
        Some(n) => n.insert(k, v),
    };
    proof {
        assert(*node == sub_inserted(*old(node), k, v));
    }
    prev
}

/// Look up in an optional subtree.
fn sub_get<'a, K: TreeKey, V, Q: KeyRef<K> + ?Sized>(node: &'a Option<Box<Node<K, V>>>, k: &Q) -> (r:
    Option<&'a V>)
    requires
        sub_wf(*node),
    ensures
        r == (if sub_map(*node).dom().contains(k@) {
            Some(&sub_map(*node)[k@])
        } else {
            None::<&'a V>
        }),
    decreases *node,
{
    match node {
        None => None,
        Some(n) => n.get(k),
    }
}

/// Count the pairs in an optional subtree.
fn sub_len<K: TreeKey, V>(node: &Option<Box<Node<K, V>>>) -> (n: usize)
    requires
        sub_wf(*node),
        sub_map(*node).dom().len() <= usize::MAX,
    ensures
        n == sub_map(*node).dom().len(),
    decreases *node,
{
    proof {
        lemma_sub_map_size(*node);
    }
    match node {
        None => 0,
        Some(n) => n.len(),
    }
}

/// A key searched for on the left cannot live in the right subtree.
proof fn lemma_key_not_in_right<K: TreeKey, V>(n: Node<K, V>, k: K::V)
    requires
        n.wf(),
        K::lt(k, n.k@),
    ensures
        !sub_map(n.r).dom().contains(k),
        !n.as_map().dom().contains(k) || sub_map(n.l).dom().contains(k),
        sub_map(n.l).dom().contains(k) ==> n.as_map().dom().contains(k) && n.as_map()[k]
            == sub_map(n.l)[k],
{
    if sub_map(n.r).dom().contains(k) {
        K::lt_total(k, n.k@);
    }
    lemma_lt_ne::<K>(k, n.k@);
}

/// A key searched for on the right cannot live in the left subtree.
proof fn lemma_key_not_in_left<K: TreeKey, V>(n: Node<K, V>, k: K::V)
    requires
        n.wf(),
        K::lt(n.k@, k),
    ensures
        !sub_map(n.l).dom().contains(k),
        !n.as_map().dom().contains(k) || sub_map(n.r).dom().contains(k),
        sub_map(n.r).dom().contains(k) ==> n.as_map().dom().contains(k) && n.as_map()[k]
            == sub_map(n.r)[k],
{
    if sub_map(n.l).dom().contains(k) {
        K::lt_total(n.k@, k);
    }
    lemma_lt_ne::<K>(n.k@, k);
}

/// The map of a well-formed node is finite and one larger than the two
/// child maps together, whose domains are disjoint from each other and
/// from the node's own key.
proof fn lemma_node_map_size<K: TreeKey, V>(n: Node<K, V>)
    requires
        n.wf(),
    ensures
        n.as_map().dom().finite(),
        n.as_map().dom().len() == sub_map(n.l).dom().len() + sub_map(n.r).dom().len() + 1,
        sub_map(n.l).dom().len() <= n.as_map().dom().len(),
        sub_map(n.r).dom().len() <= n.as_map().dom().len(),
    decreases n,
{
    lemma_sub_map_size(n.l);
    lemma_sub_map_size(n.r);
    let dl = sub_map(n.l).dom();
    let dr = sub_map(n.r).dom();
    assert forall|e: K::V| !(dl.contains(e) && dr.contains(e)) by {
        if dl.contains(e) && dr.contains(e) {
            K::lt_total(e, n.k@);
        }
    }
    assert(dl.disjoint(dr));
    vstd::set_lib::lemma_set_disjoint_lens(dl, dr);
    assert(n.as_map().dom() =~= dl.union(dr).insert(n.k@));
    assert(!dl.union(dr).contains(n.k@)) by {
        if dl.contains(n.k@) {
            lemma_lt_ne::<K>(n.k@, n.k@);
        }
        if dr.contains(n.k@) {
            lemma_lt_ne::<K>(n.k@, n.k@);
        }
    }
}

/// The map of a well-formed optional subtree is finite.
proof fn lemma_sub_map_size<K: TreeKey, V>(o: Option<Box<Node<K, V>>>)
    requires
        sub_wf(o),
    ensures
        sub_map(o).dom().finite(),
        o is None ==> sub_map(o).dom().len() == 0,
        o is Some ==> sub_map(o).dom().len() >= 1,
    decreases o,
{
    match o {
        None => {
            assert(sub_map(o).dom() =~= Set::<K::V>::empty());
        }
        Some(n) => {
            lemma_node_map_size(*n);
        }
    }
}

impl<K: TreeKey, V> Default for Tree<K, V> {
    /// An empty tree: no root at all.
    fn default() -> (t: Self)
        ensures
            t.wf(),
            t@ == Map::<K::V, V>::empty(),
            t.0 is None,
    {
        Tree(None)
    }
}

impl<K: View, V> View for Tree<K, V> {
    type V = Map<K::V, V>;

    /// A tree is viewed as the map from its keys to its values.
    closed spec fn view(&self) -> Map<K::V, V> {
        sub_map(self.0)
    }
}

impl<K: TreeKey, V> Tree<K, V> {
    /// The binary-search-tree ordering discipline, established by the
    /// constructors and preserved by every operation.
    pub open spec fn wf(self) -> bool {
        sub_wf(self.0)
    }

    /// Creates an empty `Tree`: no root at all.
    pub fn new() -> (t: Self)
        ensures
            t.wf(),
            t@ == Map::<K::V, V>::empty(),
            t.0 is None,
    {
        Self::default()
    }

    /// Creates a `Tree` holding one initial key/value pair at the root.
    pub fn with(k: K, v: V) -> (t: Self)
        ensures
            t.wf(),
            t@ == Map::<K::V, V>::empty().insert(k@, v),
            t.0 == sub_inserted(None::<Box<Node<K, V>>>, k, v),
    {
        let mut tree = Self::new();
        tree.insert(k, v);
        tree
    }

    /// Inserts a key/value pair into the tree.
    ///
    /// If the tree already has an entry for `k`, the entry is updated with
    /// the new `v` and the previous value is returned; otherwise `None` is
    /// returned and the tree grows by one pair.
    pub fn insert(&mut self, k: K, v: V) -> (prev: Option<V>)
        requires
            old(self).wf(),
        ensures
            final(self).wf(),
            final(self)@ == old(self)@.insert(k@, v),
            final(self).0 == sub_inserted(old(self).0, k, v),
            prev == (if old(self)@.dom().contains(k@) {
                Some(old(self)@[k@])
            } else {
                None::<V>
            }),
    {
        sub_insert(&mut self.0, k, v)
    }

    /// Returns a reference to the value stored under the key `k` stands
    /// for, if any; the probe may be the key type itself or any type
    /// viewing into the same key values, such as `str` for `String` keys.
    pub fn get<Q: KeyRef<K> + ?Sized>(&self, k: &Q) -> (r: Option<&V>)
        requires
            self.wf(),
        ensures
            r == (if self@.dom().contains(k@) {
                Some(&self@[k@])
            } else {
                None::<&V>
            }),
    {
        sub_get(&self.0, k)
    }

    /// Returns the number of key/value pairs in the tree.
    pub fn len(&self) -> (n: usize)
        requires
            self.wf(),
            self@.dom().len() <= usize::MAX,
        ensures
            n == self@.dom().len(),
    {
        sub_len(&self.0)
    }
}

/// The key/value pairs of an optional subtree, left to right.
pub closed spec fn in_order<K, V>(o: Option<Box<Node<K, V>>>) -> Seq<(K, V)>
    decreases o,
{
    match o {
        None => Seq::empty(),
        Some(n) => in_order(n.l) + seq![(n.k, n.v)] + in_order(n.r),
    }
}

/// Whether the keys of a pair sequence are strictly ascending.
pub open spec fn keys_ascending<K: TreeKey, V>(s: Seq<(K, V)>) -> bool {
    forall|i: int, j: int| #![trigger s[i], s[j]] 0 <= i < j < s.len() ==> K::lt(s[i].0@, s[j].0@)
}

/// In-order traversal of a well-formed subtree lists exactly the keys of
/// its map, in strictly ascending order, each with its value.
pub proof fn lemma_in_order_sorted<K: TreeKey, V>(o: Option<Box<Node<K, V>>>)
    requires
        sub_wf(o),
    ensures
        keys_ascending(in_order(o)),
        in_order(o).len() == sub_map(o).dom().len(),
        forall|i: int| 0 <= i < in_order(o).len() ==> sub_map(o).dom().contains(
            (#[trigger] in_order(o)[i]).0@,
        ) && sub_map(o)[in_order(o)[i].0@] == in_order(o)[i].1,
    decreases o,
{
    if let Some(n) = o {
        lemma_in_order_sorted(n.l);
        lemma_in_order_sorted(n.r);
        lemma_node_map_size(*n);
        let sl = in_order(n.l);
        let sr = in_order(n.r);
        let s = in_order(o);
        let m = sub_map(o);
        assert(s == sl + seq![(n.k, n.v)] + sr);
        assert forall|i: int| 0 <= i < s.len() implies m.dom().contains((#[trigger] s[i]).0@)
            && m[s[i].0@] == s[i].1 by {
            if i < sl.len() {
                let e = sl[i].0@;
                assert(sub_map(n.l).dom().contains(e));
                assert(K::lt(e, n.k@));
                lemma_lt_ne::<K>(e, n.k@);
                if sub_map(n.r).dom().contains(e) {
                    K::lt_total(e, n.k@);
                }
                assert(m[e] == sub_map(n.l)[e]);
            } else if i == sl.len() {
                assert(s[i] == (n.k, n.v));
            } else {
                let e = sr[i - sl.len() - 1].0@;
                assert(sub_map(n.r).dom().contains(e));
                assert(K::lt(n.k@, e));
                lemma_lt_ne::<K>(n.k@, e);
                assert(m[e] == sub_map(n.r)[e]);
            }
        }
        assert forall|i: int, j: int| #![trigger s[i], s[j]] 0 <= i < j < s.len() implies K::lt(
            s[i].0@,
            s[j].0@,
        ) by {
            let a = s[i].0@;
            let b = s[j].0@;
            if i < sl.len() {
                assert(a == sl[i].0@);
                assert(sub_map(n.l).dom().contains(a));
            }
            if j < sl.len() {
                assert(b == sl[j].0@);
            }
            if i > sl.len() {
                assert(a == sr[i - sl.len() - 1].0@);
            }
            if j > sl.len() {
                assert(b == sr[j - sl.len() - 1].0@);
                assert(sub_map(n.r).dom().contains(b));
            }
            if j < sl.len() || i > sl.len() {
                // both ends inside the same child: its own ordering applies
            } else if i == sl.len() || j == sl.len() {
                // one end is this node's key: the well-formedness bounds apply
            } else {
                // across the node: go through this node's key
                assert(K::lt(a, n.k@) && K::lt(n.k@, b));
                K::lt_transitive(a, n.k@, b);
            }
        }
    } else {
        assert(sub_map(o).dom() =~= Set::<K::V>::empty());
    }
}

/// How one right rotation reshapes an optional subtree: the left child
/// becomes the new root, the old root becomes its right child, and the
/// pivot's old right subtree moves across. Without a left child the
/// subtree is left unchanged.
pub open spec fn rotated_r<K, V>(pre: Option<Box<Node<K, V>>>, post: Option<Box<Node<K, V>>>) -> bool {
    match pre {
        None => post == pre,
        Some(root) => match root.l {
            None => post == pre,
            Some(pivot) => post is Some && {
                let q = *post.unwrap();
                &&& q.k == pivot.k
                &&& q.v == pivot.v
                &&& q.l == pivot.l
                &&& q.r is Some
                &&& {
                    let w = *q.r.unwrap();
                    &&& w.k == root.k
                    &&& w.v == root.v
                    &&& w.l == pivot.r
                    &&& w.r == root.r
                }
            },
        },
    }
}

/// How one left rotation reshapes an optional subtree; the mirror image of
/// [`rotated_r`].
pub open spec fn rotated_l<K, V>(pre: Option<Box<Node<K, V>>>, post: Option<Box<Node<K, V>>>) -> bool {
    match pre {
        None => post == pre,
        Some(root) => match root.r {
            None => post == pre,
            Some(pivot) => post is Some && {
                let q = *post.unwrap();
                &&& q.k == pivot.k
                &&& q.v == pivot.v
                &&& q.r == pivot.r
                &&& q.l is Some
                &&& {
                    let w = *q.l.unwrap();
                    &&& w.k == root.k
                    &&& w.v == root.v
                    &&& w.r == pivot.l
                    &&& w.l == root.l
                }
            },
        },
    }
}

/// Ordering invariant: in-order traversal of any well-formed tree yields
/// strictly ascending keys, and lists exactly the tree's map, one pair per
/// key. Trees built by any sequence of inserts are well-formed, by the
/// contract of [`Tree::insert`].
pub proof fn lemma_tree_in_order_ascending<K: TreeKey, V>(t: Tree<K, V>)
    requires
        t.wf(),
    ensures
        keys_ascending(t.in_order_pairs()),
        t.in_order_pairs().len() == t@.dom().len(),
        forall|i: int| 0 <= i < t.in_order_pairs().len() ==> t@.dom().contains(
            (#[trigger] t.in_order_pairs()[i]).0@,
        ) && t@[t.in_order_pairs()[i].0@] == t.in_order_pairs()[i].1,
{
    lemma_in_order_sorted(t.0);
}

/// Insert/get round trip: a tree whose map is `pre.insert(k, v)` — what
/// any of the insert operations here leaves behind — holds `v` under `k`,
/// so a lookup of `k` with no update in between yields `v`.
pub proof fn lemma_insert_get_round_trip<K, V>(pre: Map<K, V>, post: Map<K, V>, k: K, v: V)
    requires
        post == pre.insert(k, v),
    ensures
        post.dom().contains(k),
        post[k] == v,
{
}

/// Update semantics: inserting `v1` then `v2` under the same fresh key
/// reports no previous value and then `v1`, a later lookup yields `v2`,
/// and the key set does not change on the second insert.
pub proof fn lemma_update_in_place<K, V>(pre: Map<K, V>, k: K, v1: V, v2: V)
    ensures
        pre.insert(k, v1).dom().contains(k),
        pre.insert(k, v1)[k] == v1,
        pre.insert(k, v1).insert(k, v2)[k] == v2,
        pre.insert(k, v1).insert(k, v2).dom() == pre.insert(k, v1).dom(),
{
    assert(pre.insert(k, v1).dom() =~= pre.dom().insert(k));
    assert(pre.insert(k, v1).insert(k, v2).dom() =~= pre.insert(k, v1).dom());
}

/// Size invariant: an insert grows the key count by one exactly when the
/// key is fresh, so a tree's size equals the number of distinct keys ever
/// inserted; [`Tree::len`] returns that count by its contract.
pub proof fn lemma_insert_size<K, V>(pre: Map<K, V>, k: K, v: V)
    requires
        pre.dom().finite(),
    ensures
        pre.dom().contains(k) ==> pre.insert(k, v).dom().len() == pre.dom().len(),
        !pre.dom().contains(k) ==> pre.insert(k, v).dom().len() == pre.dom().len() + 1,
{
    assert(pre.insert(k, v).dom() =~= pre.dom().insert(k));
    if pre.dom().contains(k) {
        assert(pre.dom().insert(k) =~= pre.dom());
    }
}

/// A rotation keeps the binary-search-tree discipline, the map, and the
/// in-order pair sequence of the subtree unchanged; only the shape moves.
pub proof fn lemma_rotated_r_preserves<K: TreeKey, V>(
    pre: Option<Box<Node<K, V>>>,
    post: Option<Box<Node<K, V>>>,
)
    requires
        rotated_r(pre, post),
        sub_wf(pre),
    ensures
        sub_wf(post),
        sub_map(post) == sub_map(pre),
        in_order(post) == in_order(pre),
{
    if pre is Some && pre.unwrap().l is Some {
        let root = *pre.unwrap();
        let pivot = *root.l.unwrap();
        let q = *post.unwrap();
        let w = *q.r.unwrap();
        let ma = sub_map(pivot.l);
        let mb = sub_map(pivot.r);
        let mc = sub_map(root.r);
        let k0 = root.k@;
        let k1 = pivot.k@;
        assert(root.wf());
        assert(sub_wf(root.l));
        assert(pivot.wf());
        assert(sub_map(root.l) == pivot.as_map());
        assert(pivot.as_map().dom().contains(k1));
        assert(K::lt(k1, k0));
        lemma_lt_ne::<K>(k1, k0);
        assert forall|e: K::V| #[trigger] ma.dom().contains(e) implies K::lt(e, k1) && K::lt(e, k0)
            && e != k1 && e != k0 && !mb.dom().contains(e) && !mc.dom().contains(e) by {
            assert(pivot.as_map().dom().contains(e));
            K::lt_transitive(e, k1, k0);
            lemma_lt_ne::<K>(e, k1);
            lemma_lt_ne::<K>(e, k0);
            if mb.dom().contains(e) {
                K::lt_total(e, k1);
            }
            if mc.dom().contains(e) {
                K::lt_total(e, k0);
            }
        }
        assert forall|e: K::V| #[trigger] mb.dom().contains(e) implies K::lt(k1, e) && K::lt(
            e,
            k0,
        ) && e != k1 && e != k0 && !mc.dom().contains(e) by {
            assert(pivot.as_map().dom().contains(e));
            lemma_lt_ne::<K>(k1, e);
            lemma_lt_ne::<K>(e, k0);
            if mc.dom().contains(e) {
                K::lt_total(e, k0);
            }
        }
        assert forall|e: K::V| #[trigger] mc.dom().contains(e) implies K::lt(k0, e) && K::lt(
            k1,
            e,
        ) && e != k0 && e != k1 by {
            K::lt_transitive(k1, k0, e);
            lemma_lt_ne::<K>(k0, e);
            lemma_lt_ne::<K>(k1, e);
        }
        // the reshaped subtree keeps the discipline
        assert(sub_wf(pivot.l) && sub_wf(pivot.r) && sub_wf(root.r));
        assert(sub_map(w.l) == mb && sub_map(w.r) == mc);
        assert(w.as_map() == mb.union_prefer_right(mc).insert(k0, root.v));
        assert(w.as_map().dom() =~= mb.dom().union(mc.dom()).insert(k0));
        assert(w.wf());
        assert(sub_map(q.l) == ma);
        assert(sub_map(q.r) == w.as_map());
        assert forall|e: K::V| #[trigger] w.as_map().dom().contains(e) implies K::lt(k1, e) by {
            if e == k0 {
            }
        }
        assert(q.wf());
        assert(sub_wf(post));
        // and the same map
        assert(q.as_map() == ma.union_prefer_right(w.as_map()).insert(k1, pivot.v));
        assert(pivot.as_map() == ma.union_prefer_right(mb).insert(k1, pivot.v));
        assert(root.as_map() == pivot.as_map().union_prefer_right(mc).insert(k0, root.v));
        assert(sub_map(post) == q.as_map());
        assert(sub_map(pre) == root.as_map());
        assert(sub_map(post) =~= sub_map(pre));
        // and the same in-order sequence
        assert(in_order(root.l) == in_order(pivot.l) + seq![(pivot.k, pivot.v)] + in_order(
            pivot.r,
        ));
        assert(in_order(q.r) == in_order(pivot.r) + seq![(root.k, root.v)] + in_order(root.r));
        assert(in_order(post) =~= in_order(pre));
    }
}

/// The mirror statement of [`lemma_rotated_r_preserves`], for left rotation.
pub proof fn lemma_rotated_l_preserves<K: TreeKey, V>(
    pre: Option<Box<Node<K, V>>>,
    post: Option<Box<Node<K, V>>>,
)
    requires
        rotated_l(pre, post),
        sub_wf(pre),
    ensures
        sub_wf(post),
        sub_map(post) == sub_map(pre),
        in_order(post) == in_order(pre),
{
    if pre is Some && pre.unwrap().r is Some {
        let root = *pre.unwrap();
        let pivot = *root.r.unwrap();
        let q = *post.unwrap();
        let w = *q.l.unwrap();
        let ma = sub_map(root.l);
        let mb = sub_map(pivot.l);
        let mc = sub_map(pivot.r);
        let k0 = root.k@;
        let k1 = pivot.k@;
        assert(root.wf());
        assert(sub_wf(root.r));
        assert(pivot.wf());
        assert(sub_map(root.r) == pivot.as_map());
        assert(pivot.as_map().dom().contains(k1));
        assert(K::lt(k0, k1));
        lemma_lt_ne::<K>(k0, k1);
        assert forall|e: K::V| #[trigger] ma.dom().contains(e) implies K::lt(e, k0) && K::lt(e, k1)
            && e != k0 && e != k1 && !mb.dom().contains(e) && !mc.dom().contains(e) by {
            assert(pivot.as_map().dom().contains(k1));
            K::lt_transitive(e, k0, k1);
            lemma_lt_ne::<K>(e, k0);
            lemma_lt_ne::<K>(e, k1);
            if mb.dom().contains(e) {
                assert(pivot.as_map().dom().contains(e));
                K::lt_total(e, k0);
            }
            if mc.dom().contains(e) {
                assert(pivot.as_map().dom().contains(e));
                K::lt_total(e, k0);
            }
        }
        assert forall|e: K::V| #[trigger] mb.dom().contains(e) implies K::lt(k0, e) && K::lt(
            e,
            k1,
        ) && e != k0 && e != k1 && !mc.dom().contains(e) by {
            assert(pivot.as_map().dom().contains(e));
            lemma_lt_ne::<K>(k0, e);
            lemma_lt_ne::<K>(e, k1);
            if mc.dom().contains(e) {
                K::lt_total(e, k1);
            }
        }
        assert forall|e: K::V| #[trigger] mc.dom().contains(e) implies K::lt(k1, e) && K::lt(
            k0,
            e,
        ) && e != k1 && e != k0 by {
            assert(pivot.as_map().dom().contains(e));
            K::lt_transitive(k0, k1, e);
            lemma_lt_ne::<K>(k1, e);
            lemma_lt_ne::<K>(k0, e);
        }
        assert(sub_wf(pivot.l) && sub_wf(pivot.r) && sub_wf(root.l));
        assert(sub_map(w.l) == ma && sub_map(w.r) == mb);
        assert(w.as_map() == ma.union_prefer_right(mb).insert(k0, root.v));
        assert(w.as_map().dom() =~= ma.dom().union(mb.dom()).insert(k0));
        assert(w.wf());
        assert(sub_map(q.r) == mc);
        assert(sub_map(q.l) == w.as_map());
        assert forall|e: K::V| #[trigger] w.as_map().dom().contains(e) implies K::lt(e, k1) by {
            if e == k0 {
            }
        }
        assert(q.wf());
        assert(sub_wf(post));
        assert(q.as_map() == w.as_map().union_prefer_right(mc).insert(k1, pivot.v));
        assert(pivot.as_map() == mb.union_prefer_right(mc).insert(k1, pivot.v));
        assert(root.as_map() == ma.union_prefer_right(pivot.as_map()).insert(k0, root.v));
        assert(sub_map(post) == q.as_map());
        assert(sub_map(pre) == root.as_map());
        assert(sub_map(post) =~= sub_map(pre));
        assert(in_order(root.r) == in_order(pivot.l) + seq![(pivot.k, pivot.v)] + in_order(
            pivot.r,
        ));
        assert(in_order(q.l) == in_order(root.l) + seq![(root.k, root.v)] + in_order(pivot.l));
        assert(in_order(post) =~= in_order(pre));
    }
}

/// Opposite rotations at the same place undo one another exactly, as long
/// as the first one had a pivot child to move.
pub proof fn lemma_rotate_round_trip<K, V>(
    a: Option<Box<Node<K, V>>>,
    b: Option<Box<Node<K, V>>>,
    c: Option<Box<Node<K, V>>>,
)
    ensures
        rotated_r(a, b) && rotated_l(b, c) && a is Some && a.unwrap().l is Some ==> c == a,
        rotated_l(a, b) && rotated_r(b, c) && a is Some && a.unwrap().r is Some ==> c == a,
{
    if rotated_r(a, b) && rotated_l(b, c) && a is Some && a.unwrap().l is Some {
        let root = *a.unwrap();
        let q2 = *c.unwrap();
        assert(*q2.l.unwrap() == *root.l.unwrap());
        assert(q2 == root);
    }
    if rotated_l(a, b) && rotated_r(b, c) && a is Some && a.unwrap().r is Some {
        let root = *a.unwrap();
        let q2 = *c.unwrap();
        assert(*q2.r.unwrap() == *root.r.unwrap());
        assert(q2 == root);
    }
}

/// Rotate the subtree in `root` to the right, a no-op when there is no
/// left child to pivot on. The shape changes as [`rotated_r`] describes;
/// on a well-formed subtree the discipline, the map and the in-order
/// sequence are all kept.
pub fn rotate_r<K: TreeKey, V>(root: &mut Option<Box<Node<K, V>>>)
    ensures
        rotated_r(*old(root), *final(root)),
        sub_wf(*old(root)) ==> sub_wf(*final(root)) && sub_map(*final(root)) == sub_map(
            *old(root),
        ) && in_order(*final(root)) == in_order(*old(root)),
{
    *root = match root.take() {
        None => {
            proof {
                rotate_done(*old(root), *root);
            }
            return ;
        }
        Some(mut r) => {
            match r.l.take() {
                None => Some(r),
                Some(mut pivot) => {
                    r.l = pivot.r.take();
                    pivot.r = Some(r);
                    Some(pivot)
                }
            }
        }
    };
    proof {
        rotate_done(*old(root), *root);
    }
}

/// Rotate the subtree in `root` to the left, a no-op when there is no
/// right child to pivot on; the mirror image of [`rotate_r`].
pub fn rotate_l<K: TreeKey, V>(root: &mut Option<Box<Node<K, V>>>)
    ensures
        rotated_l(*old(root), *final(root)),
        sub_wf(*old(root)) ==> sub_wf(*final(root)) && sub_map(*final(root)) == sub_map(
            *old(root),
        ) && in_order(*final(root)) == in_order(*old(root)),
{
    *root = match root.take() {
        None => {
            proof {
                rotate_l_done(*old(root), *root);
            }
            return ;
        }
        Some(mut r) => {
            match r.r.take() {
                None => Some(r),
                Some(mut pivot) => {
                    r.r = pivot.l.take();
                    pivot.l = Some(r);
                    Some(pivot)
                }
            }
        }
    };
    proof {
        rotate_l_done(*old(root), *root);
    }
}

/// Discharge the preservation half of [`rotate_r`]'s contract.
proof fn rotate_done<K: TreeKey, V>(pre: Option<Box<Node<K, V>>>, post: Option<Box<Node<K, V>>>)
    requires
        rotated_r(pre, post),
    ensures
        sub_wf(pre) ==> sub_wf(post) && sub_map(post) == sub_map(pre) && in_order(post)
            == in_order(pre),
{
    if sub_wf(pre) {
        lemma_rotated_r_preserves(pre, post);
    }
}

/// Discharge the preservation half of [`rotate_l`]'s contract.
proof fn rotate_l_done<K: TreeKey, V>(pre: Option<Box<Node<K, V>>>, post: Option<Box<Node<K, V>>>)
    requires
        rotated_l(pre, post),
    ensures
        sub_wf(pre) ==> sub_wf(post) && sub_map(post) == sub_map(pre) && in_order(post)
            == in_order(pre),
{
    if sub_wf(pre) {
        lemma_rotated_l_preserves(pre, post);
    }
}

/// Whether `b` is a node-for-node clone of `a`: the same shape, the same
/// keys in the same places, and values that `V::clone`'s own contract
/// relates. For value types whose clone is exact this makes the clone a
/// structural snapshot of the original.
pub open spec fn clone_like<K, V: Clone>(a: Option<Box<Node<K, V>>>, b: Option<Box<Node<K, V>>>) -> bool
    decreases a,
{
    match a {
        None => b is None,
        Some(x) => b is Some && {
            let y = b.unwrap();
            &&& y.k == x.k
            &&& cloned::<V>(x.v, y.v)
            &&& clone_like(x.l, y.l)
            &&& clone_like(x.r, y.r)
        },
    }
}

impl<K: TreeKey + Copy, V: Clone> Clone for Node<K, V> {
    /// Clone the subtree: keys are copied, values are cloned, and the
    /// node structure is kept exactly.
    fn clone(&self) -> (res: Self)
        ensures
            self.wf() ==> res.wf(),
            res.k == self.k,
            cloned::<V>(self.v, res.v),
            clone_like(self.l, res.l),
            clone_like(self.r, res.r),
            res.as_map().dom() =~= self.as_map().dom(),
            forall|e: K::V| #[trigger] res.as_map().dom().contains(e) ==> cloned::<V>(
                self.as_map()[e],
                res.as_map()[e],
            ),
        decreases *self,
    {
        let res = Node {
            k: self.k,
            v: self.v.clone(),
            l: (match &self.l {
                None => None,
                Some(n) => Some(Box::new((&**n).clone())),
            }),
            r: (match &self.r {
                None => None,
                Some(n) => Some(Box::new((&**n).clone())),
            }),
        };
        proof {
            assert(clone_like(self.l, res.l));
            assert(clone_like(self.r, res.r));
            assert(sub_map(res.l).dom() =~= sub_map(self.l).dom());
            assert(sub_map(res.r).dom() =~= sub_map(self.r).dom());
            assert(res.as_map().dom() =~= self.as_map().dom());
            assert forall|e: K::V| #[trigger] res.as_map().dom().contains(e) implies cloned::<
                V,
            >(self.as_map()[e], res.as_map()[e]) by {
                if e == self.k@ {
                } else if sub_map(res.r).dom().contains(e) {
                    assert(res.as_map()[e] == sub_map(res.r)[e]);
                    assert(self.as_map()[e] == sub_map(self.r)[e]);
                } else {
                    assert(res.as_map()[e] == sub_map(res.l)[e]);
                    assert(self.as_map()[e] == sub_map(self.l)[e]);
                }
            }
        }
        res
    }
}

impl<K: TreeKey + Copy, V: Clone> Clone for Tree<K, V> {
    /// Clone the whole tree: keys are copied, values are cloned, and the
    /// node structure is kept exactly.
    fn clone(&self) -> (res: Self)
        ensures
            self.wf() ==> res.wf(),
            clone_like(self.0, res.0),
            res@.dom() =~= self@.dom(),
            forall|e: K::V| #[trigger] res@.dom().contains(e) ==> cloned::<V>(self@[e], res@[e]),
    {
        Tree(
            match &self.0 {
                None => None,
                Some(n) => Some(Box::new((&**n).clone())),
            },
        )
    }
}

/// The height of an optional subtree; an empty subtree has height zero.
pub closed spec fn height<K, V>(o: Option<Box<Node<K, V>>>) -> nat
    decreases o,
{
    match o {
        None => 0,
        Some(n) => 1 + if height(n.l) >= height(n.r) {
            height(n.l)
        } else {
            height(n.r)
        },
    }
}

/// The pairs a borrowed cursor still covers: its whole subtree.
spec fn cursor_pairs<K, V>(c: Option<&Node<K, V>>) -> Seq<(K, V)> {
    match c {
        None => Seq::empty(),
        Some(n) => in_order(n.l) + seq![(n.k, n.v)] + in_order(n.r),
    }
}

/// The height a borrowed cursor still has to descend.
spec fn cursor_height<K, V>(c: Option<&Node<K, V>>) -> nat {
    match c {
        None => 0,
        Some(n) => 1 + if height(n.l) >= height(n.r) {
            height(n.l)
        } else {
            height(n.r)
        },
    }
}

/// The pairs contributed by a stack of visited nodes, top of stack first:
/// each node's own pair followed by its right subtree.
spec fn stack_pairs<K, V>(s: Seq<&Node<K, V>>) -> Seq<(K, V)>
    decreases s.len(),
{
    if s.len() == 0 {
        Seq::empty()
    } else {
        seq![(s.last().k, s.last().v)] + in_order(s.last().r) + stack_pairs(s.drop_last())
    }
}

/// An in-order iterator over the nodes of a [`Tree`], driven by an
/// explicit stack instead of recursion. It reads the tree only.
pub struct NodeIter<'a, K, V> {
    /// The subtree to walk before the stacked nodes are emitted.
    curr: Option<&'a Node<K, V>>,
    /// Visited nodes whose pair and right subtree are still pending,
    /// innermost last.
    stack: Vec<&'a Node<K, V>>,
}

impl<'a, K, V> NodeIter<'a, K, V> {
    /// The pairs the iterator has not yet produced, in emission order.
    pub closed spec fn remaining(self) -> Seq<(K, V)> {
        cursor_pairs(self.curr) + stack_pairs(self.stack@)
    }

    /// Start an in-order walk over `tree`.
    pub fn new(tree: &'a Tree<K, V>) -> (it: Self)
        ensures
            it.remaining() == tree.in_order_pairs(),
    {
        let it = NodeIter {
            curr: (match &tree.0 {
                None => None,
                Some(b) => Some(&**b),
            }),
            stack: Vec::new(),
        };
        proof {
            assert(stack_pairs(it.stack@) =~= Seq::<(K, V)>::empty());
            assert(it.remaining() =~= in_order(tree.0));
        }
        it
    }

    /// Produce the next node in ascending key position: descend the left
    /// spine from the cursor, then emit the top of the stack and move the
    /// cursor to its right child.
    pub fn next(&mut self) -> (r: Option<&'a Node<K, V>>)
        ensures
            match r {
                None => old(self).remaining().len() == 0 && final(self).remaining().len() == 0,
                Some(n) => old(self).remaining().len() > 0 && (n.k, n.v) == old(
                    self,
                ).remaining()[0] && final(self).remaining() == old(self).remaining().drop_first(),
            },
    {
        while self.curr.is_some()
            invariant
                cursor_pairs(self.curr) + stack_pairs(self.stack@) == old(self).remaining(),
            decreases cursor_height(self.curr),
        {
            let cur = self.curr.unwrap();
            let ghost prev_stack = self.stack@;
            self.stack.push(cur);
            self.curr = match &cur.l {
                None => None,
                Some(b) => Some(&**b),
            };
            proof {
                assert(self.stack@.drop_last() =~= prev_stack);
                assert(stack_pairs(self.stack@) == seq![(cur.k, cur.v)] + in_order(cur.r)
                    + stack_pairs(prev_stack));
                assert(cursor_pairs(self.curr) == in_order(cur.l));
                assert(cursor_pairs(self.curr) + stack_pairs(self.stack@) =~= old(
                    self,
                ).remaining());
            }
        }
        match self.stack.pop() {
            Some(top) => {
                self.curr = match &top.r {
                    None => None,
                    Some(b) => Some(&**b),
                };
                proof {
                    assert(cursor_pairs(self.curr) == in_order(top.r));
                    assert(old(self).remaining() == seq![(top.k, top.v)] + in_order(top.r)
                        + stack_pairs(self.stack@));
                    assert((top.k, top.v) == old(self).remaining()[0]);
                    assert(final(self).remaining() =~= old(self).remaining().drop_first());
                }
                Some(top)
            }
            None => {
                proof {
                    assert(stack_pairs(self.stack@) =~= Seq::<(K, V)>::empty());
                    assert(old(self).remaining().len() == 0);
                }
                None
            }
        }
    }
}

/// An in-order iterator over the key/value pairs of a [`Tree`].
pub struct Iter<'a, K, V>(NodeIter<'a, K, V>);

impl<'a, K, V> Iter<'a, K, V> {
    /// The pairs the iterator has not yet produced, in emission order.
    pub closed spec fn remaining(self) -> Seq<(K, V)> {
        self.0.remaining()
    }

    /// Start an in-order walk over `tree`.
    fn new(tree: &'a Tree<K, V>) -> (it: Self)
        ensures
            it.remaining() == tree.in_order_pairs(),
    {
        Iter(NodeIter::new(tree))
    }

    /// Produce references to the next pair in ascending key position.
    pub fn next(&mut self) -> (r: Option<(&'a K, &'a V)>)
        ensures
            match r {
                None => old(self).remaining().len() == 0 && final(self).remaining().len() == 0,
                Some(p) => old(self).remaining().len() > 0 && (*p.0, *p.1) == old(
                    self,
                ).remaining()[0] && final(self).remaining() == old(self).remaining().drop_first(),
            },
    {
        match self.0.next() {
            None => None,
            Some(n) => Some((&n.k, &n.v)),
        }
    }
}

/// The edges around one node: its key paired with each child's key.
spec fn child_edges<K, V>(n: Node<K, V>) -> Seq<(K, K)> {
    (match n.l {
        None => Seq::empty(),
        Some(c) => seq![(n.k, c.k)],
    }) + (match n.r {
        None => Seq::empty(),
        Some(c) => seq![(n.k, c.k)],
    })
}

/// All parent-key/child-key edges of an optional subtree, nodes taken in
/// in-order position.
pub closed spec fn sub_edges<K, V>(o: Option<Box<Node<K, V>>>) -> Seq<(K, K)>
    decreases o,
{
    match o {
        None => Seq::empty(),
        Some(n) => sub_edges(n.l) + child_edges(*n) + sub_edges(n.r),
    }
}

/// Append the edges of the subtree under `o` to `out`.
fn edges_walk<K: Copy, V>(o: &Option<Box<Node<K, V>>>, out: &mut Vec<(K, K)>)
    ensures
        final(out)@ == old(out)@ + sub_edges(*o),
    decreases *o,
{
    match o {
        None => {
            proof {
                assert(old(out)@ + sub_edges(*o) =~= old(out)@);
            }
        }
        Some(n) => {
            edges_walk(&n.l, out);
            if let Some(c) = &n.l {
                out.push((n.k, c.k));
            }
            if let Some(c) = &n.r {
                out.push((n.k, c.k));
            }
            edges_walk(&n.r, out);
            proof {
                assert(final(out)@ =~= old(out)@ + sub_edges(*o));
            }
        }
    }
}

impl<K, V> Tree<K, V> {
    /// The key/value pairs of the tree, left to right.
    pub closed spec fn in_order_pairs(self) -> Seq<(K, V)> {
        in_order(self.0)
    }

    /// Returns a key-sorted key/value iterator over the `Tree`.
    pub fn iter<'a>(&'a self) -> (it: Iter<'a, K, V>)
        ensures
            it.remaining() == self.in_order_pairs(),
    {
        Iter::new(self)
    }

    /// The key/value pairs of the tree, collected left to right. Together
    /// with [`Tree::edges`] this is the read-only projection that a graph
    /// rendering of the tree needs.
    pub fn nodes(&self) -> (out: Vec<(K, V)>) where K: Copy, V: Copy
        ensures
            out@ == self.in_order_pairs(),
    {
        let mut it = NodeIter::new(self);
        let mut out: Vec<(K, V)> = Vec::new();
        loop
            invariant_except_break
                out@ + it.remaining() == self.in_order_pairs(),
            ensures
                out@ == self.in_order_pairs(),
            decreases it.remaining().len(),
        {
            let ghost pre = it.remaining();
            match it.next() {
                None => {
                    proof {
                        assert(out@ + it.remaining() =~= out@);
                        assert(out@ =~= self.in_order_pairs());
                    }
                    break ;
                }
                Some(n) => {
                    out.push((n.k, n.v));
                    proof {
                        assert(pre =~= seq![pre[0]] + pre.drop_first());
                        assert(out@ + it.remaining() =~= self.in_order_pairs());
                    }
                }
            }
        }
        out
    }

    /// The parent-key/child-key edges of the tree, one entry per
    /// parent/child link, parents taken in in-order position.
    pub fn edges(&self) -> (out: Vec<(K, K)>) where K: Copy
        ensures
            out@ == sub_edges(self.0),
    {
        let mut out: Vec<(K, K)> = Vec::new();
        edges_walk(&self.0, &mut out);
        proof {
            assert(out@ =~= sub_edges(self.0));
        }
        out
    }
}

/// Borrow the left child of the root node under `root`, if both exist.
#[allow(dead_code)]
pub(crate) fn l<K, V>(root: &Option<Box<Node<K, V>>>) -> (res: Option<&Node<K, V>>)
    ensures
        match *root {
            None => res is None,
            Some(b) => match b.l {
                None => res is None,
                Some(c) => res is Some && *res.unwrap() == *c,
            },
        },
{
    match root {
        None => None,
        Some(box_root) => match &box_root.l {
            None => None,
            Some(c) => Some(&**c),
        },
    }
}

/// Mutably borrow the left child of the root node under `root`, if both
/// exist; the subtree afterwards is the old one with the left child
/// replaced by whatever the borrow was left holding.
#[allow(dead_code)]
pub(crate) fn l_mut<K, V>(root: &mut Option<Box<Node<K, V>>>) -> (res: Option<&mut Node<K, V>>)
    ensures
        match res {
            None => *final(root) == *old(root) && (*old(root) is None || old(
                root,
            ).unwrap().l is None),
            Some(m) => *old(root) is Some && old(root).unwrap().l is Some && *m == *old(
                root,
            ).unwrap().l.unwrap() && *final(root) is Some && *final(root).unwrap() == (Node {
                l: Some(Box::new(*final(m))),
                ..*old(root).unwrap()
            }),
        },
{
    match root {
        None => None,
        Some(box_root) => match &mut box_root.l {
            None => None,
            Some(c) => Some(&mut **c),
        },
    }
}

/// Mutably borrow the right child of the root node under `root`, if both
/// exist; the mirror image of [`l_mut`].
#[allow(dead_code)]
pub(crate) fn r_mut<K, V>(root: &mut Option<Box<Node<K, V>>>) -> (res: Option<&mut Node<K, V>>)
    ensures
        match res {
            None => *final(root) == *old(root) && (*old(root) is None || old(
                root,
            ).unwrap().r is None),
            Some(m) => *old(root) is Some && old(root).unwrap().r is Some && *m == *old(
                root,
            ).unwrap().r.unwrap() && *final(root) is Some && *final(root).unwrap() == (Node {
                r: Some(Box::new(*final(m))),
                ..*old(root).unwrap()
            }),
        },
{
    match root {
        None => None,
        Some(box_root) => match &mut box_root.r {
            None => None,
            Some(c) => Some(&mut **c),
        },
    }
}

/// The pair count of an optional subtree, absent for an empty one.
#[allow(dead_code)]
pub(crate) fn len<K: TreeKey, V>(root: &Option<Box<Node<K, V>>>) -> (res: Option<usize>)
    requires
        sub_wf(*root),
        sub_map(*root).dom().len() <= usize::MAX,
    ensures
        match res {
            None => *root is None,
            Some(c) => *root is Some && c == sub_map(*root).dom().len(),
        },
{
    match root {
        None => None,
        Some(n) => Some(n.len()),
    }
}

/// Borrow the right child of the root node under `root`, if both exist.
#[allow(dead_code)]
pub(crate) fn r<K, V>(root: &Option<Box<Node<K, V>>>) -> (res: Option<&Node<K, V>>)
    ensures
        match *root {
            None => res is None,
            Some(b) => match b.r {
                None => res is None,
                Some(c) => res is Some && *res.unwrap() == *c,
            },
        },
{
    match root {
        None => None,
        Some(box_root) => match &box_root.r {
            None => None,
            Some(c) => Some(&**c),
        },
    }
}

impl<K: View, V> Tree<K, V> {
    /// Returns `true` if the tree holds no pair at all.
    pub fn is_empty(&self) -> (r: bool)
        ensures
            r <==> self@ == Map::<K::V, V>::empty(),
    {
        proof {
            if let Some(n) = &self.0 {
                assert(self@.dom().contains(n.k@));
                assert(self@ != Map::<K::V, V>::empty());
            } else {
                assert(self@ =~= Map::<K::V, V>::empty());
            }
        }
        self.0.is_none()
    }
}

} // verus!
