//! A binary search tree whose nodes live in a slot arena.
//!
//! Nodes are stored in a growable pool of optional records and reference
//! their children by slot index instead of by owning pointer; a free list
//! records vacant slots for reuse. The reachable structure is mirrored by
//! a ghost outline, so that the usual recursive tree reasoning applies to
//! the index-linked representation.

use crate::key::lemma_lt_ne;
use crate::key::KeyRef;
use crate::key::TreeKey;
use core::cmp::Ordering;
use vstd::pervasive::unreached;
use vstd::prelude::*;

verus! {

/// A node record stored in one arena slot: a key, a value and the
/// optional slot indices of the two children.
#[derive(Debug, PartialEq, Clone)]
pub struct LNode<K, V> {
    /// This node's key.
    pub(crate) k: K,
    /// This node's value.
    pub(crate) v: V,
    /// Left child slot: all keys below it are smaller than `k`.
    pub(crate) l: Option<usize>,
    /// Right child slot: all keys below it are greater than `k`.
    pub(crate) r: Option<usize>,
}

impl<K: TreeKey, V> LNode<K, V> {
    /// Make a record for a leaf holding `k` and `v`.
    pub(crate) fn new(k: K, v: V) -> (n: Self)
        ensures
            n == (LNode { k, v, l: None::<usize>, r: None::<usize> }),
    {
        LNode { k, v, l: None, r: None }
    }
}

/// The ghost outline of the part of an arena reachable from one root
/// index: which slot sits where, holding which key and value.
enum Outline<K, V> {
    /// An absent subtree.
    Tip,
    /// A node in a slot, with the outlines of its two children.
    Fork { slot: usize, key: K, value: V, left: Box<Outline<K, V>>, right: Box<Outline<K, V>> },
}

/// The slots an outline names.
spec fn outline_slots<K, V>(w: Outline<K, V>) -> Set<usize>
    decreases w,
{
    match w {
        Outline::Tip => Set::empty(),
        Outline::Fork { slot, key, value, left, right } => outline_slots(*left).union(
            outline_slots(*right),
        ).insert(slot),
    }
}

/// The map an outline holds.
spec fn outline_map<K: View, V>(w: Outline<K, V>) -> Map<K::V, V>
    decreases w,
{
    match w {
        Outline::Tip => Map::empty(),
        Outline::Fork { slot, key, value, left, right } => outline_map(*left).union_prefer_right(
            outline_map(*right),
        ).insert(key@, value),
    }
}

/// The binary-search-tree discipline on an outline, together with slot
/// soundness: no slot is named twice.
spec fn outline_wf<K: TreeKey, V>(w: Outline<K, V>) -> bool
    decreases w,
{
    match w {
        Outline::Tip => true,
        Outline::Fork { slot, key, value, left, right } => {
            &&& outline_wf(*left)
            &&& outline_wf(*right)
            &&& (forall|e: K::V| #[trigger] outline_map(*left).dom().contains(e) ==> K::lt(
                e,
                key@,
            ))
            &&& (forall|e: K::V| #[trigger] outline_map(*right).dom().contains(e) ==> K::lt(
                key@,
                e,
            ))
            &&& !outline_slots(*left).contains(slot)
            &&& !outline_slots(*right).contains(slot)
            &&& outline_slots(*left).disjoint(outline_slots(*right))
        },
    }
}

/// The exact outline an insert produces: an equal key swaps the value in
/// its slot; a fresh key descends by comparison and lands in slot `f` as
/// the absent child of the frontier node. This pins the shape of the
/// reachable structure, not merely its map.
spec fn outline_inserted<K: TreeKey, V>(w: Outline<K, V>, k: K, v: V, f: usize) -> Outline<K, V>
    decreases w,
{
    match w {
        Outline::Tip => Outline::Fork {
            slot: f,
            key: k,
            value: v,
            left: Box::new(Outline::Tip),
            right: Box::new(Outline::Tip),
        },
        Outline::Fork { slot, key, value, left, right } => if k@ == key@ {
            Outline::Fork { slot, key, value: v, left, right }
        } else if K::lt(k@, key@) {
            Outline::Fork {
                slot,
                key,
                value,
                left: Box::new(outline_inserted(*left, k, v, f)),
                right,
            }
        } else {
            Outline::Fork {
                slot,
                key,
                value,
                left,
                right: Box::new(outline_inserted(*right, k, v, f)),
            }
        },
    }
}

/// The exact outline a value update produces: the node whose key matches
/// gets the new value, everything else stays in place. Only meaningful
/// when the key is present; an empty outline stays empty.
spec fn outline_updated<K: TreeKey, V>(w: Outline<K, V>, k: K, v: V) -> Outline<K, V>
    decreases w,
{
    match w {
        Outline::Tip => Outline::Tip,
        Outline::Fork { slot, key, value, left, right } => if k@ == key@ {
            Outline::Fork { slot, key, value: v, left, right }
        } else if K::lt(k@, key@) {
            Outline::Fork { slot, key, value, left: Box::new(outline_updated(*left, k, v)), right }
        } else {
            Outline::Fork {
                slot,
                key,
                value,
                left,
                right: Box::new(outline_updated(*right, k, v)),
            }
        },
    }
}

/// Whether the arena `slots`, entered at `o`, spells out the outline `w`.
spec fn sub_matches<K, V>(slots: Seq<Option<LNode<K, V>>>, o: Option<usize>, w: Outline<K, V>) -> bool
    decreases w,
{
    match w {
        Outline::Tip => o is None,
        Outline::Fork { slot, key, value, left, right } => {
            &&& o == Some(slot)
            &&& (slot as int) < slots.len()
            &&& slots[slot as int] is Some
            &&& {
                let n = slots[slot as int].unwrap();
                &&& n.k == key
                &&& n.v == value
                &&& sub_matches(slots, n.l, *left)
                &&& sub_matches(slots, n.r, *right)
            }
        },
    }
}

/// Every slot a matched outline names holds a live record of the arena.
proof fn lemma_matches_live<K, V>(
    slots: Seq<Option<LNode<K, V>>>,
    o: Option<usize>,
    w: Outline<K, V>,
)
    requires
        sub_matches(slots, o, w),
    ensures
        forall|s: usize| #[trigger] outline_slots(w).contains(s) ==> (s as int) < slots.len()
            && slots[s as int] is Some,
    decreases w,
{
    if let Outline::Fork { slot, key, value, left, right } = w {
        let n = slots[slot as int].unwrap();
        lemma_matches_live(slots, n.l, *left);
        lemma_matches_live(slots, n.r, *right);
        assert forall|s: usize| #[trigger] outline_slots(w).contains(s) implies (s as int)
            < slots.len() && slots[s as int] is Some by {
            if s != slot {
                assert(outline_slots(*left).contains(s) || outline_slots(*right).contains(s));
            }
        }
    }
}

/// An outline matched against an absent root is the empty outline.
proof fn lemma_matches_none<K, V>(slots: Seq<Option<LNode<K, V>>>, w: Outline<K, V>)
    requires
        sub_matches(slots, None::<usize>, w),
    ensures
        w is Tip,
{
    if let Outline::Fork { slot, key, value, left, right } = w {
        assert(false);
    }
}

/// Matching reads only the slots the outline names, so it survives any
/// change outside them, including growth of the arena.
proof fn lemma_matches_frame<K, V>(
    s1: Seq<Option<LNode<K, V>>>,
    s2: Seq<Option<LNode<K, V>>>,
    o: Option<usize>,
    w: Outline<K, V>,
)
    requires
        sub_matches(s1, o, w),
        s1.len() <= s2.len(),
        forall|s: usize| #[trigger] outline_slots(w).contains(s) ==> s2[s as int] == s1[s as int],
    ensures
        sub_matches(s2, o, w),
    decreases w,
{
    if let Outline::Fork { slot, key, value, left, right } = w {
        let n = s1[slot as int].unwrap();
        assert(outline_slots(w).contains(slot));
        assert forall|s: usize| #[trigger]
            outline_slots(*left).contains(s) implies s2[s as int] == s1[s as int] by {
            assert(outline_slots(w).contains(s));
        }
        assert forall|s: usize| #[trigger]
            outline_slots(*right).contains(s) implies s2[s as int] == s1[s as int] by {
            assert(outline_slots(w).contains(s));
        }
        lemma_matches_frame(s1, s2, n.l, *left);
        lemma_matches_frame(s1, s2, n.r, *right);
    }
}

/// A sequence that contains `x` anywhere but in its last position still
/// contains `x` once the last position is dropped.
proof fn lemma_contains_drop_last(s: Seq<usize>, x: usize)
    requires
        s.len() > 0,
        s.contains(x),
        x != s.last(),
    ensures
        s.drop_last().contains(x),
{
    let j = choose|j: int| 0 <= j < s.len() && s[j] == x;
    assert(j < s.len() - 1);
    assert(s.drop_last()[j] == x);
}

/// A binary search tree whose nodes live in a growable slot arena with a
/// free list, children referenced by slot index.
pub struct LTree<K, V> {
    /// The slot of the root node, if the tree is not empty.
    root: Option<usize>,
    /// The arena: every node record lives in one slot here.
    node_slots: Vec<Option<LNode<K, V>>>,
    /// Vacant slots available for reuse, most recently freed last.
    free_slots: Vec<usize>,
    /// The outline of the structure reachable from `root`.
    shape: Ghost<Outline<K, V>>,
}

impl<K, V> LTree<K, V> {
    /// The free-list discipline: every listed slot is a vacant slot in
    /// range, listed once, and every vacant slot is listed.
    spec fn arena_inv(self) -> bool {
        &&& (forall|j: int|
            0 <= j < self.free_slots@.len() ==> ((#[trigger] self.free_slots@[j]) as int)
                < self.node_slots@.len() && self.node_slots@[self.free_slots@[j] as int] is None)
        &&& (forall|j1: int, j2: int|
            0 <= j1 < j2 < self.free_slots@.len() ==> self.free_slots@[j1] != self.free_slots@[j2])
        &&& (forall|i: int|
            0 <= i < self.node_slots@.len() && (#[trigger] self.node_slots@[i]) is None
                ==> self.free_slots@.contains(i as usize))
    }

    /// Every live slot is reachable from the root: the arena leaks nothing.
    spec fn all_live_reachable(self) -> bool {
        forall|i: int|
            0 <= i < self.node_slots@.len() && (#[trigger] self.node_slots@[i]) is Some
                ==> outline_slots(self.shape@).contains(i as usize)
    }

    /// The slots that currently hold a live node record.
    pub closed spec fn live_slots(self) -> Set<usize> {
        Set::new(|s: usize| (s as int) < self.node_slots@.len() && self.node_slots@[s as int] is Some)
    }

    /// The slots reachable from the root by child links.
    pub closed spec fn reachable_slots(self) -> Set<usize> {
        outline_slots(self.shape@)
    }

    /// The slots currently on the free list.
    pub closed spec fn free_set(self) -> Set<usize> {
        Set::new(|s: usize| self.free_slots@.contains(s))
    }

    /// The free list as the arena keeps it, most recently freed last.
    pub closed spec fn free_list(self) -> Seq<usize> {
        self.free_slots@
    }

    /// How many slots the arena has grown to, live and vacant together.
    pub closed spec fn slot_count(self) -> usize {
        self.node_slots.len()
    }
}

impl<K: PartialEq, V: PartialEq> PartialEq for LTree<K, V> {
    /// Arena trees are compared by their stored representation: the same
    /// slots holding the same records, with the same free list.
    fn eq(&self, other: &Self) -> bool {
        self.root == other.root && self.node_slots == other.node_slots && self.free_slots
            == other.free_slots
    }
}

impl<K: PartialEq, V: PartialEq> vstd::std_specs::cmp::PartialEqSpecImpl for LTree<K, V> {
    /// Nothing is promised of `==` here: the record types compare by
    /// impls this crate does not reason about.
    open spec fn obeys_eq_spec() -> bool {
        false
    }

    closed spec fn eq_spec(&self, other: &Self) -> bool {
        self.root == other.root && self.node_slots@ == other.node_slots@ && self.free_slots@
            == other.free_slots@
    }
}

impl<K: View, V> View for LTree<K, V> {
    type V = Map<K::V, V>;

    /// An arena tree is viewed as the map from its keys to its values.
    closed spec fn view(&self) -> Map<K::V, V> {
        outline_map(self.shape@)
    }
}

impl<K: TreeKey, V> LTree<K, V> {
    /// The whole-tree invariant: the arena spells out a well-formed
    /// outline, the free list is sound, and no live slot is orphaned.
    pub closed spec fn wf(self) -> bool {
        &&& self.arena_inv()
        &&& sub_matches(self.node_slots@, self.root, self.shape@)
        &&& outline_wf(self.shape@)
        &&& self.all_live_reachable()
    }
}

/// Arena no-leak/no-alias: in a well-formed arena tree the slots reachable
/// from the root are exactly the live slots, and no live slot is free.
pub proof fn lemma_arena_no_leak<K: TreeKey, V>(t: LTree<K, V>)
    requires
        t.wf(),
    ensures
        t.reachable_slots() =~= t.live_slots(),
        t.live_slots().disjoint(t.free_set()),
{
    lemma_matches_live(t.node_slots@, t.root, t.shape@);
    assert forall|s: usize| t.live_slots().contains(s) implies !t.free_set().contains(s) by {
        if t.free_slots@.contains(s) {
            let j = choose|j: int| 0 <= j < t.free_slots@.len() && t.free_slots@[j] == s;
            assert(t.node_slots@[s as int] is None);
        }
    }
}

impl<K: TreeKey, V> Default for LTree<K, V> {
    /// An empty arena tree: no root, no slots, nothing free.
    fn default() -> (t: Self)
        ensures
            t.wf(),
            t@ == Map::<K::V, V>::empty(),
            t.slot_count() == 0,
            t.free_list() == Seq::<usize>::empty(),
            t.live_slots() == Set::<usize>::empty(),
    {
        let t = LTree {
            root: None,
            node_slots: Vec::new(),
            free_slots: Vec::new(),
            shape: Ghost(Outline::Tip),
        };
        proof {
            assert(t@ =~= Map::<K::V, V>::empty());
            assert(t.free_list() =~= Seq::<usize>::empty());
            assert(t.live_slots() =~= Set::<usize>::empty());
        }
        t
    }
}

impl<K: TreeKey, V> LTree<K, V> {
    /// Creates an empty `LTree`.
    pub fn new() -> (t: Self)
        ensures
            t.wf(),
            t@ == Map::<K::V, V>::empty(),
            t.slot_count() == 0,
            t.free_list() == Seq::<usize>::empty(),
            t.live_slots() == Set::<usize>::empty(),
    {
        Self::default()
    }

    /// Creates an `LTree` holding one initial key/value pair, stored in
    /// the arena's first slot.
    pub fn with(k: K, v: V) -> (t: Self)
        ensures
            t.wf(),
            t@ == Map::<K::V, V>::empty().insert(k@, v),
            t.slot_count() == 1,
            t.free_list() == Seq::<usize>::empty(),
            t.live_slots() == Set::<usize>::empty().insert(0usize),
    {
        let mut tree = Self::new();
        tree.insert(k, v);
        tree
    }

    /// Pop a vacant slot off the free list, or append a fresh one. The
    /// returned slot is vacant, in range and no longer listed free; the
    /// rest of the arena is untouched.
    fn new_slot(&mut self) -> (slot: usize)
        requires
            old(self).arena_inv(),
        ensures
            (slot as int) < final(self).node_slots@.len(),
            final(self).node_slots@[slot as int] is None,
            !final(self).free_slots@.contains(slot),
            final(self).root == old(self).root,
            final(self).shape == old(self).shape,
            old(self).node_slots@.len() <= final(self).node_slots@.len(),
            final(self).node_slots@.len() <= old(self).node_slots@.len() + 1,
            forall|i: int|
                0 <= i < old(self).node_slots@.len() ==> final(self).node_slots@[i] == old(self).node_slots@[i],
            (slot as int) >= old(self).node_slots@.len() || old(self).node_slots@[slot as int] is None,
            ({
                ||| (final(self).free_slots@ == old(self).free_slots@.drop_last() && old(self).free_slots@.len() > 0 && slot == old(self).free_slots@.last() && final(self).node_slots@.len() == old(self).node_slots@.len())
                ||| (old(self).free_slots@.len() == 0 && final(self).free_slots@ == old(self).free_slots@ && slot as int == old(self).node_slots@.len() && final(self).node_slots@ == old(self).node_slots@.push(
                    None::<LNode<K, V>>,
                ))
            }),
    {
        match self.free_slots.pop() {
            Some(s) => {
                proof {
                    assert(old(self).free_slots@[old(self).free_slots@.len() - 1] == s);
                    if self.free_slots@.contains(s) {
                        let j = choose|j: int|
                            0 <= j < self.free_slots@.len() && self.free_slots@[j] == s;
                        assert(old(self).free_slots@[j] == s);
                        assert(false);
                    }
                }
                s
            }
            None => {
                let s = self.node_slots.len();
                self.node_slots.push(None);
                s
            }
        }
    }

    /// Inserts a key/value pair into the tree.
    ///
    /// If the tree already has an entry for `k`, the entry is updated with
    /// the new `v` and the previous value is returned; otherwise `None` is
    /// returned, and exactly one slot is taken for the new node — a
    /// reclaimed one if the free list has any, a fresh one otherwise.
    pub fn insert(&mut self, k: K, v: V) -> (prev: Option<V>)
        requires
            old(self).wf(),
        ensures
            final(self).wf(),
            final(self)@ == old(self)@.insert(k@, v),
            prev == (if old(self)@.dom().contains(k@) {
                Some(old(self)@[k@])
            } else {
                None::<V>
            }),
            prev is Some ==> final(self).live_slots() == old(self).live_slots() && final(self).free_list() == old(self).free_list() && final(self).slot_count() == old(self).slot_count(),
            prev is None && old(self).free_list().len() > 0 ==> final(self).free_list() == old(self).free_list().drop_last() && final(self).slot_count() == old(self).slot_count() && !old(self).live_slots().contains(old(self).free_list().last()) && final(self).live_slots()
                == old(self).live_slots().insert(old(self).free_list().last()),
            prev is None && old(self).free_list().len() == 0 ==> final(self).free_list() == old(self).free_list() && final(self).slot_count() == old(self).slot_count() + 1 && final(self).live_slots() == old(self).live_slots().insert(old(self).slot_count()),
    {
        match self.root {
            None => {
                proof {
                    lemma_matches_none(old(self).node_slots@, old(self).shape@);
                    assert(outline_map(old(self).shape@) == Map::<K::V, V>::empty());
                    assert(old(self)@.dom() =~= Set::<K::V>::empty());
                }
                let f = self.new_slot();
                {
                    let p = &mut self.node_slots[f];
                    *p = Some(LNode::new(k, v));
                }
                self.root = Some(f);
                let ghost leaf = Outline::Fork {
                    slot: f,
                    key: k,
                    value: v,
                    left: Box::new(Outline::Tip),
                    right: Box::new(Outline::Tip),
                };
                self.shape = Ghost(leaf);
                proof {
                    let s1 = old(self).node_slots@;
                    let s2 = self.node_slots@;
                    assert(outline_slots(Outline::<K, V>::Tip) == Set::<usize>::empty());
                    assert(outline_slots(leaf) =~= Set::<usize>::empty().insert(f));
                    assert(sub_matches(s2, None::<usize>, Outline::<K, V>::Tip));
                    assert(sub_matches(s2, Some(f), leaf));
                    assert(outline_map(Outline::<K, V>::Tip) == Map::<K::V, V>::empty());
                    assert(outline_map(leaf) =~= old(self)@.insert(k@, v));
                    assert(outline_wf(leaf));
                    assert forall|i: int|
                        0 <= i < s2.len() implies ((#[trigger] s2[i]) is None <==> (i < s1.len()
                        && s1[i] is None && i != f as int)) by {
                        if i != f as int && i < s1.len() {
                            assert(s2[i] == s1[i]);
                        }
                    }
                    assert(self.arena_inv()) by {
                        lemma_new_slot_filled(*old(self), *self, f);
                    }
                    assert(self.all_live_reachable()) by {
                        assert forall|i: int|
                            0 <= i < s2.len() && (#[trigger] s2[i]) is Some implies outline_slots(
                            self.shape@,
                        ).contains(i as usize) by {
                            if i != f as int {
                                if i < s1.len() {
                                    assert(s2[i] == s1[i]);
                                    assert(outline_slots(old(self).shape@).contains(i as usize));
                                    assert(false);
                                } else {
                                    assert(false);
                                }
                            }
                        }
                    }
                    assert(self.wf());
                    lemma_arena_no_leak(*old(self));
                    lemma_arena_no_leak(*self);
                    assert(old(self).live_slots() =~= Set::<usize>::empty());
                    assert(self.live_slots() =~= old(self).live_slots().insert(f));
                    if old(self).free_slots@.len() > 0 {
                        assert(f == old(self).free_list().last());
                    } else {
                        assert(f == old(self).slot_count());
                    }
                }
                None
            }
            Some(root_slot) => {
                let (prev, w2) = self.insert_at_slot(root_slot, k, v, Ghost(self.shape@));
                self.shape = Ghost(w2@);
                proof {
                    let s1 = old(self).node_slots@;
                    let s2 = self.node_slots@;
                    assert(self.all_live_reachable()) by {
                        assert forall|i: int|
                            0 <= i < s2.len() && (#[trigger] s2[i]) is Some implies outline_slots(
                            self.shape@,
                        ).contains(i as usize) by {
                            if 0 <= i < s1.len() && s1[i] is Some {
                                assert(outline_slots(old(self).shape@).contains(i as usize));
                                assert(outline_slots(old(self).shape@).subset_of(
                                    outline_slots(w2@),
                                ));
                            }
                        }
                    }
                    assert(self.wf());
                    lemma_arena_no_leak(*old(self));
                    lemma_arena_no_leak(*self);
                    if prev is Some {
                        assert(outline_slots(w2@) == outline_slots(old(self).shape@));
                        assert(self.live_slots() =~= old(self).live_slots());
                    } else {
                        let f: usize = if old(self).free_slots@.len() > 0 {
                            old(self).free_slots@.last()
                        } else {
                            old(self).node_slots.len()
                        };
                        assert(!outline_slots(old(self).shape@).contains(f));
                        assert(!old(self).live_slots().contains(f));
                        assert(outline_slots(w2@) == outline_slots(old(self).shape@).insert(f));
                        assert(self.live_slots() =~= old(self).live_slots().insert(f));
                        if old(self).free_slots@.len() == 0 {
                            assert(f == old(self).slot_count());
                        }
                    }
                }
                prev
            }
        }
    }

    /// Descend from the node in `idx` — spelled out by the outline `w` —
    /// and insert `k`/`v` below it, taking a slot for a fresh key.
    fn insert_at_slot(&mut self, idx: usize, k: K, v: V, w: Ghost<Outline<K, V>>) -> (res: (
        Option<V>,
        Ghost<Outline<K, V>>,
    ))
        requires
            old(self).arena_inv(),
            sub_matches(old(self).node_slots@, Some(idx), w@),
            outline_wf(w@),
        ensures
            final(self).arena_inv(),
            final(self).root == old(self).root,
            sub_matches(final(self).node_slots@, Some(idx), res.1@),
            outline_wf(res.1@),
            outline_map(res.1@) == outline_map(w@).insert(k@, v),
            res.0 == (if outline_map(w@).dom().contains(k@) {
                Some(outline_map(w@)[k@])
            } else {
                None::<V>
            }),
            outline_slots(w@).subset_of(outline_slots(res.1@)),
            res.0 is Some ==> final(self).free_slots@ == old(self).free_slots@ && final(self).node_slots@.len() == old(self).node_slots@.len() && outline_slots(res.1@)
                == outline_slots(w@) && res.1@ == outline_updated(w@, k, v),
            res.0 is None ==> ({
                ||| (old(self).free_slots@.len() > 0 && final(self).free_slots@ == old(self).free_slots@.drop_last() && final(self).node_slots@.len() == old(self).node_slots@.len() && !outline_slots(w@).contains(old(self).free_slots@.last())
                    && outline_slots(res.1@) == outline_slots(w@).insert(
                    old(self).free_slots@.last(),
                ) && res.1@ == outline_inserted(w@, k, v, old(self).free_slots@.last()))
                ||| (old(self).free_slots@.len() == 0 && final(self).free_slots@ == old(self).free_slots@ && final(self).node_slots@.len() == old(self).node_slots@.len() + 1
                    && !outline_slots(w@).contains(old(self).node_slots.len()) && outline_slots(
                    res.1@,
                ) == outline_slots(w@).insert(old(self).node_slots.len()) && res.1@
                    == outline_inserted(w@, k, v, old(self).node_slots.len()))
            }),
            old(self).node_slots@.len() <= final(self).node_slots@.len(),
            forall|i: int|
                0 <= i < old(self).node_slots@.len() && !outline_slots(res.1@).contains(i as usize)
                    ==> final(self).node_slots@[i] == old(self).node_slots@[i],
            forall|s: usize|
                outline_slots(res.1@).contains(s) && !outline_slots(w@).contains(s) ==> (s as int)
                    >= old(self).node_slots@.len() || old(self).node_slots@[s as int] is None,
            forall|i: int|
                0 <= i < final(self).node_slots@.len() && (#[trigger] final(self).node_slots@[i]) is Some ==> (i < old(self).node_slots@.len() && old(self).node_slots@[i] is Some) || outline_slots(res.1@).contains(i as usize),
        decreases w@,
    {
        let ghost w0 = w@;
        let ghost key0 = w0->key;
        let ghost val0 = w0->value;
        let ghost lw = *w0->left;
        let ghost rw = *w0->right;
        let (ord, cl, cr) = {
            let node = match &self.node_slots[idx] {
                Some(n) => n,
                None => unreached(),
            };
            (node.k.cmp_with(&k), node.l, node.r)
        };
        proof {
            lemma_matches_live(old(self).node_slots@, Some(idx), w0);
        }
        match ord {
            Ordering::Equal => {
                let ghost w2 = Outline::Fork {
                    slot: idx,
                    key: key0,
                    value: v,
                    left: Box::new(lw),
                    right: Box::new(rw),
                };
                let tmp = {
                    let p = &mut self.node_slots[idx];
                    match p {
                        Some(n) => {
                            let mut tmp = v;
                            core::mem::swap(&mut n.v, &mut tmp);
                            tmp
                        }
                        None => unreached(),
                    }
                };
                proof {
                    let s1 = old(self).node_slots@;
                    let s2 = self.node_slots@;
                    assert(s2 == s1.update(
                        idx as int,
                        Some(LNode { k: key0, v, l: cl, r: cr }),
                    ));
                    assert(outline_slots(w2) =~= outline_slots(w0));
                    assert forall|s: usize| #[trigger]
                        outline_slots(lw).contains(s) implies s2[s as int] == s1[s as int] by {
                        assert(outline_slots(w0).contains(s));
                    }
                    assert forall|s: usize| #[trigger]
                        outline_slots(rw).contains(s) implies s2[s as int] == s1[s as int] by {
                        assert(outline_slots(w0).contains(s));
                    }
                    lemma_matches_frame(s1, s2, cl, lw);
                    lemma_matches_frame(s1, s2, cr, rw);
                    assert(sub_matches(s2, Some(idx), w2));
                    assert(outline_wf(w2));
                    assert(k@ == key0@);
                    assert(outline_map(w2) =~= outline_map(w0).insert(k@, v));
                    assert(outline_map(w0).dom().contains(k@));
                    assert(outline_map(w0)[k@] == val0);
                    assert(tmp == val0);
                    assert(self.arena_inv()) by {
                        assert forall|i: int|
                            0 <= i < s2.len() && (#[trigger] s2[i]) is None implies self.free_slots@.contains(
                            i as usize,
                        ) by {
                            assert(s1[i] is None);
                        }
                    }
                    assert(w2 == outline_updated(w0, k, v));
                }
                (Some(tmp), Ghost(w2))
            }
            Ordering::Greater => {
                // k sorts below this node: work on the left child
                proof {
                    lemma_lt_ne::<K>(k@, key0@);
                    if outline_map(rw).dom().contains(k@) {
                        K::lt_total(k@, key0@);
                    }
                }
                match cl {
                    None => {
                        proof {
                            assert(sub_matches(old(self).node_slots@, cl, lw));
                            lemma_matches_none(old(self).node_slots@, lw);
                        }
                        let f = self.new_slot();
                        {
                            let p = &mut self.node_slots[f];
                            *p = Some(LNode::new(k, v));
                        }
                        {
                            let p = &mut self.node_slots[idx];
                            match p {
                                Some(n) => {
                                    n.l = Some(f);
                                }
                                None => unreached(),
                            }
                        }
                        let ghost leaf = Outline::Fork {
                            slot: f,
                            key: k,
                            value: v,
                            left: Box::new(Outline::Tip),
                            right: Box::new(Outline::Tip),
                        };
                        let ghost w2 = Outline::Fork {
                            slot: idx,
                            key: key0,
                            value: val0,
                            left: Box::new(leaf),
                            right: Box::new(rw),
                        };
                        proof {
                            lemma_attach_leaf(*old(self), *self, idx, f, k, v, w0, leaf, w2, true);
                            assert(leaf == outline_inserted(lw, k, v, f));
                            assert(w2 == outline_inserted(w0, k, v, f));
                            if old(self).free_slots@.len() == 0 {
                                assert(f == old(self).node_slots.len());
                            }
                        }
                        (None, Ghost(w2))
                    }
                    Some(c) => {
                        let (r0, wl2) = self.insert_at_slot(c, k, v, Ghost(lw));
                        let ghost w2 = Outline::Fork {
                            slot: idx,
                            key: key0,
                            value: val0,
                            left: Box::new(wl2@),
                            right: Box::new(rw),
                        };
                        proof {
                            lemma_descend(*old(self), *self, idx, k, v, w0, wl2@, w2, true);
                            assert(outline_slots(w0) == outline_slots(lw).union(
                                outline_slots(rw),
                            ).insert(idx));
                            if r0 is Some {
                                assert(outline_slots(wl2@) == outline_slots(lw));
                                assert(outline_slots(w2) =~= outline_slots(w0));
                                assert(wl2@ == outline_updated(lw, k, v));
                                assert(w2 == outline_updated(w0, k, v));
                            } else {
                                let f: usize = if old(self).free_slots@.len() > 0 {
                                    old(self).free_slots@.last()
                                } else {
                                    old(self).node_slots.len()
                                };
                                lemma_matches_live(old(self).node_slots@, Some(idx), w0);
                                assert(outline_slots(wl2@) == outline_slots(lw).insert(f));
                                assert(wl2@ == outline_inserted(lw, k, v, f));
                                assert(!outline_slots(w0).contains(f));
                                assert(outline_slots(w2) =~= outline_slots(w0).insert(f));
                                assert(w2 == outline_inserted(w0, k, v, f));
                            }
                        }
                        (r0, Ghost(w2))
                    }
                }
            }
            Ordering::Less => {
                // k sorts above this node: work on the right child
                proof {
                    lemma_lt_ne::<K>(key0@, k@);
                    if outline_map(lw).dom().contains(k@) {
                        K::lt_total(key0@, k@);
                    }
                }
                match cr {
                    None => {
                        proof {
                            assert(sub_matches(old(self).node_slots@, cr, rw));
                            lemma_matches_none(old(self).node_slots@, rw);
                        }
                        let f = self.new_slot();
                        {
                            let p = &mut self.node_slots[f];
                            *p = Some(LNode::new(k, v));
                        }
                        {
                            let p = &mut self.node_slots[idx];
                            match p {
                                Some(n) => {
                                    n.r = Some(f);
                                }
                                None => unreached(),
                            }
                        }
                        let ghost leaf = Outline::Fork {
                            slot: f,
                            key: k,
                            value: v,
                            left: Box::new(Outline::Tip),
                            right: Box::new(Outline::Tip),
                        };
                        let ghost w2 = Outline::Fork {
                            slot: idx,
                            key: key0,
                            value: val0,
                            left: Box::new(lw),
                            right: Box::new(leaf),
                        };
                        proof {
                            lemma_attach_leaf(*old(self), *self, idx, f, k, v, w0, leaf, w2, false);
                            K::lt_total(k@, key0@);
                            assert(leaf == outline_inserted(rw, k, v, f));
                            assert(w2 == outline_inserted(w0, k, v, f));
                            if old(self).free_slots@.len() == 0 {
                                assert(f == old(self).node_slots.len());
                            }
                        }
                        (None, Ghost(w2))
                    }
                    Some(c) => {
                        let (r0, wr2) = self.insert_at_slot(c, k, v, Ghost(rw));
                        let ghost w2 = Outline::Fork {
                            slot: idx,
                            key: key0,
                            value: val0,
                            left: Box::new(lw),
                            right: Box::new(wr2@),
                        };
                        proof {
                            lemma_descend(*old(self), *self, idx, k, v, w0, wr2@, w2, false);
                            assert(outline_slots(w0) == outline_slots(lw).union(
                                outline_slots(rw),
                            ).insert(idx));
                            K::lt_total(k@, key0@);
                            if r0 is Some {
                                assert(outline_slots(wr2@) == outline_slots(rw));
                                assert(outline_slots(w2) =~= outline_slots(w0));
                                assert(wr2@ == outline_updated(rw, k, v));
                                assert(w2 == outline_updated(w0, k, v));
                            } else {
                                let f: usize = if old(self).free_slots@.len() > 0 {
                                    old(self).free_slots@.last()
                                } else {
                                    old(self).node_slots.len()
                                };
                                lemma_matches_live(old(self).node_slots@, Some(idx), w0);
                                assert(outline_slots(wr2@) == outline_slots(rw).insert(f));
                                assert(wr2@ == outline_inserted(rw, k, v, f));
                                assert(!outline_slots(w0).contains(f));
                                assert(outline_slots(w2) =~= outline_slots(w0).insert(f));
                                assert(w2 == outline_inserted(w0, k, v, f));
                            }
                        }
                        (r0, Ghost(w2))
                    }
                }
            }
        }
    }

    /// Returns a reference to the value stored under the key `k` stands
    /// for, if any; the probe may be the key type itself or any type
    /// viewing into the same key values, such as `str` for `String` keys.
    pub fn get<Q: KeyRef<K> + ?Sized>(&self, k: &Q) -> (r: Option<&V>)
        requires
            self.wf(),
        ensures
            r == (if self@.dom().contains(k@) {
                Some(&self@[k@])
            } else {
                None::<&V>
            }),
    {
        match self.root {
            None => {
                proof {
                    assert(self.shape@ is Tip);
                    assert(self@.dom() =~= Set::<K::V>::empty());
                }
                None
            }
            Some(slot) => self.get_slot(slot, k, Ghost(self.shape@)),
        }
    }

    /// Descend from the node in `slot` — spelled out by the outline `w` —
    /// comparing keys, until `k` or an absent child is found.
    fn get_slot<Q: KeyRef<K> + ?Sized>(&self, slot: usize, k: &Q, w: Ghost<Outline<K, V>>) -> (r:
        Option<&V>)
        requires
            sub_matches(self.node_slots@, Some(slot), w@),
            outline_wf(w@),
        ensures
            r == (if outline_map(w@).dom().contains(k@) {
                Some(&outline_map(w@)[k@])
            } else {
                None::<&V>
            }),
        decreases w@,
    {
        let ghost w0 = w@;
        let ghost key0 = w0->key;
        let ghost lw = *w0->left;
        let ghost rw = *w0->right;
        let node = match &self.node_slots[slot] {
            Some(n) => n,
            None => unreached(),
        };
        match k.cmp_key(&node.k) {
            Ordering::Equal => {
                proof {
                    assert(outline_map(w0).dom().contains(k@));
                    assert(outline_map(w0)[k@] == node.v);
                }
                Some(&node.v)
            }
            Ordering::Less => {
                proof {
                    lemma_lt_ne::<K>(k@, key0@);
                    if outline_map(rw).dom().contains(k@) {
                        K::lt_total(k@, key0@);
                    }
                    assert(outline_map(w0).dom().contains(k@) == outline_map(lw).dom().contains(
                        k@,
                    ));
                    if outline_map(lw).dom().contains(k@) {
                        assert(outline_map(w0)[k@] == outline_map(lw)[k@]);
                    }
                }
                match node.l {
                    None => {
                        proof {
                            assert(sub_matches(self.node_slots@, node.l, lw));
                            lemma_matches_none(self.node_slots@, lw);
                            assert(outline_map(lw).dom() =~= Set::<K::V>::empty());
                        }
                        None
                    }
                    Some(c) => self.get_slot(c, k, Ghost(lw)),
                }
            }
            Ordering::Greater => {
                proof {
                    lemma_lt_ne::<K>(key0@, k@);
                    if outline_map(lw).dom().contains(k@) {
                        K::lt_total(key0@, k@);
                    }
                    assert(outline_map(w0).dom().contains(k@) == outline_map(rw).dom().contains(
                        k@,
                    ));
                    if outline_map(rw).dom().contains(k@) {
                        assert(outline_map(w0)[k@] == outline_map(rw)[k@]);
                    }
                }
                match node.r {
                    None => {
                        proof {
                            assert(sub_matches(self.node_slots@, node.r, rw));
                            lemma_matches_none(self.node_slots@, rw);
                            assert(outline_map(rw).dom() =~= Set::<K::V>::empty());
                        }
                        None
                    }
                    Some(c) => self.get_slot(c, k, Ghost(rw)),
                }
            }
        }
    }
}

/// After a fresh slot from [`LTree::new_slot`] has been filled, the free
/// list discipline holds again: the filled slot was taken off the list,
/// and every other vacant slot is still listed.
proof fn lemma_new_slot_filled<K: TreeKey, V>(pre: LTree<K, V>, post: LTree<K, V>, f: usize)
    requires
        pre.arena_inv(),
        pre.node_slots@.len() <= post.node_slots@.len(),
        (f as int) < post.node_slots@.len(),
        post.node_slots@[f as int] is Some,
        (post.free_slots@ == pre.free_slots@.drop_last() && pre.free_slots@.len() > 0 && f
            == pre.free_slots@.last() && post.node_slots@.len() == pre.node_slots@.len()) || (
        post.free_slots@ == pre.free_slots@ && f as int == pre.node_slots@.len()
            && post.node_slots@.len() == pre.node_slots@.len() + 1),
        // vacancy changed at `f` alone
        forall|i: int|
            0 <= i < post.node_slots@.len() ==> ((#[trigger] post.node_slots@[i]) is None <==> (i
                < pre.node_slots@.len() && pre.node_slots@[i] is None && i != f as int)),
    ensures
        post.arena_inv(),
{
    let free1 = pre.free_slots@;
    let free2 = post.free_slots@;
    assert forall|j: int|
        0 <= j < free2.len() implies ((#[trigger] free2[j]) as int) < post.node_slots@.len()
        && post.node_slots@[free2[j] as int] is None by {
        assert(free2[j] == free1[j]);
        assert(pre.node_slots@[free1[j] as int] is None);
        if free2[j] == f {
            if free2 == free1.drop_last() && free1.len() > 0 && f == free1.last() {
                // the popped entry cannot still be listed, the list had it once
                assert(free1[j] == free1[free1.len() - 1]);
                assert(false);
            } else {
                // an appended slot was beyond every listed index
                assert((free1[j] as int) < pre.node_slots@.len());
                assert(false);
            }
        }
    }
    assert forall|i: int|
        0 <= i < post.node_slots@.len() && (#[trigger] post.node_slots@[i]) is None implies post.free_slots@.contains(
        i as usize,
    ) by {
        assert(i < pre.node_slots@.len() && pre.node_slots@[i] is None && i != f as int);
        assert(free1.contains(i as usize));
        if free2 == free1.drop_last() && free1.len() > 0 && f == free1.last() {
            vstd::std_specs::vec::axiom_spec_len(&pre.node_slots);
            assert((i as usize) as int == i);
            lemma_contains_drop_last(free1, i as usize);
        }
    }
}

/// Attaching a fresh leaf below the node in `idx` re-establishes every
/// clause of [`LTree::insert_at_slot`]'s contract for the grown outline.
proof fn lemma_attach_leaf<K: TreeKey, V>(
    pre: LTree<K, V>,
    post: LTree<K, V>,
    idx: usize,
    f: usize,
    k: K,
    v: V,
    w0: Outline<K, V>,
    leaf: Outline<K, V>,
    w2: Outline<K, V>,
    on_left: bool,
)
    requires
        pre.arena_inv(),
        sub_matches(pre.node_slots@, Some(idx), w0),
        outline_wf(w0),
        w0 is Fork,
        leaf == (Outline::Fork {
            slot: f,
            key: k,
            value: v,
            left: Box::new(Outline::<K, V>::Tip),
            right: Box::new(Outline::<K, V>::Tip),
        }),
        w2 == (Outline::Fork {
            slot: idx,
            key: w0->key,
            value: w0->value,
            left: Box::new(if on_left { leaf } else { *w0->left }),
            right: Box::new(if on_left { *w0->right } else { leaf }),
        }),
        on_left ==> *w0->left is Tip && K::lt(k@, w0->key@),
        !on_left ==> *w0->right is Tip && K::lt(w0->key@, k@),
        // what the allocation and the two writes did:
        pre.node_slots@.len() <= post.node_slots@.len() <= pre.node_slots@.len() + 1,
        (f as int) < post.node_slots@.len(),
        (f as int) >= pre.node_slots@.len() || pre.node_slots@[f as int] is None,
        f != idx,
        post.node_slots@[f as int] == Some(LNode { k, v, l: None::<usize>, r: None::<usize> }),
        post.node_slots@[idx as int] == Some(
            LNode {
                k: w0->key,
                v: w0->value,
                l: if on_left {
                    Some(f)
                } else {
                    pre.node_slots@[idx as int].unwrap().l
                },
                r: if on_left {
                    pre.node_slots@[idx as int].unwrap().r
                } else {
                    Some(f)
                },
            },
        ),
        forall|i: int|
            0 <= i < post.node_slots@.len() && i != f as int && i != idx as int ==> (i
                < pre.node_slots@.len() && post.node_slots@[i] == pre.node_slots@[i]) || (i
                >= pre.node_slots@.len() && post.node_slots@[i] is None),
        post.root == pre.root,
        (post.free_slots@ == pre.free_slots@.drop_last() && pre.free_slots@.len() > 0 && f
            == pre.free_slots@.last() && post.node_slots@.len() == pre.node_slots@.len()) || (
        post.free_slots@ == pre.free_slots@ && f as int == pre.node_slots@.len()
            && post.node_slots@.len() == pre.node_slots@.len() + 1),
    ensures
        post.arena_inv(),
        sub_matches(post.node_slots@, Some(idx), w2),
        outline_wf(w2),
        outline_map(w2) == outline_map(w0).insert(k@, v),
        !outline_map(w0).dom().contains(k@),
        !outline_slots(w0).contains(f),
        outline_slots(w2) == outline_slots(w0).insert(f),
        outline_slots(w0).subset_of(outline_slots(w2)),
        forall|i: int|
            0 <= i < pre.node_slots@.len() && !outline_slots(w2).contains(i as usize)
                ==> post.node_slots@[i] == pre.node_slots@[i],
        forall|s: usize|
            outline_slots(w2).contains(s) && !outline_slots(w0).contains(s) ==> (s as int)
                >= pre.node_slots@.len() || pre.node_slots@[s as int] is None,
        forall|i: int|
            0 <= i < post.node_slots@.len() && (#[trigger] post.node_slots@[i]) is Some ==> (i
                < pre.node_slots@.len() && pre.node_slots@[i] is Some) || outline_slots(
                w2,
            ).contains(i as usize),
{
    let s1 = pre.node_slots@;
    let s2 = post.node_slots@;
    let key0 = w0->key;
    let lw = *w0->left;
    let rw = *w0->right;
    let kept: Outline<K, V> = if on_left {
        rw
    } else {
        lw
    };
    lemma_matches_live(s1, Some(idx), w0);
    lemma_lt_ne::<K>(if on_left {
        k@
    } else {
        key0@
    }, if on_left {
        key0@
    } else {
        k@
    });
    // the leaf slot is brand new to the outline
    assert(!outline_slots(w0).contains(f));
    // the kept child outline still matches: its slots are neither f nor idx
    let n1 = s1[idx as int].unwrap();
    assert(sub_matches(s1, if on_left {
        n1.r
    } else {
        n1.l
    }, kept));
    assert forall|s: usize| #[trigger]
        outline_slots(kept).contains(s) implies s2[s as int] == s1[s as int] by {
        assert(outline_slots(w0).contains(s));
        assert(s != f && s != idx);
    }
    lemma_matches_frame(s1, s2, if on_left {
        n1.r
    } else {
        n1.l
    }, kept);
    assert(sub_matches(s2, None::<usize>, Outline::<K, V>::Tip));
    assert(sub_matches(s2, Some(f), leaf));
    assert(sub_matches(s2, Some(idx), w2));
    // the grown outline keeps the discipline
    assert(outline_map(Outline::<K, V>::Tip) == Map::<K::V, V>::empty());
    assert(outline_slots(Outline::<K, V>::Tip) == Set::<usize>::empty());
    assert(outline_map(leaf) =~= Map::<K::V, V>::empty().insert(k@, v));
    assert(outline_slots(leaf) =~= Set::<usize>::empty().insert(f));
    assert(outline_map(if on_left {
        lw
    } else {
        rw
    }).dom() =~= Set::<K::V>::empty());
    assert forall|e: K::V| #[trigger] outline_map(leaf).dom().contains(e) implies e == k@ by {}
    assert(outline_wf(leaf));
    assert(outline_wf(w2));
    // the map gained exactly the new pair
    assert(!outline_map(w0).dom().contains(k@)) by {
        if outline_map(kept).dom().contains(k@) {
            K::lt_total(k@, key0@);
        }
    }
    assert(outline_map(w2) =~= outline_map(w0).insert(k@, v));
    assert(outline_slots(w2) =~= outline_slots(w0).insert(f));
    // the free list discipline holds again: both written slots are live
    assert forall|i: int|
        0 <= i < s2.len() implies ((#[trigger] s2[i]) is None <==> (i < s1.len() && s1[i] is None
        && i != f as int)) by {
        if i == idx as int {
            assert(s1[i] is Some);
        } else if i != f as int {
            if i < s1.len() {
                assert(s2[i] == s1[i]);
            } else {
                assert(false);
            }
        }
    }
    lemma_new_slot_filled(pre, post, f);
}

/// Rebuilding a node's outline around a child updated by a recursive
/// insert re-establishes every clause of [`LTree::insert_at_slot`]'s
/// contract one level up.
proof fn lemma_descend<K: TreeKey, V>(
    pre: LTree<K, V>,
    post: LTree<K, V>,
    idx: usize,
    k: K,
    v: V,
    w0: Outline<K, V>,
    child2: Outline<K, V>,
    w2: Outline<K, V>,
    on_left: bool,
)
    requires
        pre.arena_inv(),
        sub_matches(pre.node_slots@, Some(idx), w0),
        outline_wf(w0),
        w0 is Fork,
        on_left ==> K::lt(k@, w0->key@),
        !on_left ==> K::lt(w0->key@, k@),
        w2 == (Outline::Fork {
            slot: idx,
            key: w0->key,
            value: w0->value,
            left: Box::new(if on_left { child2 } else { *w0->left }),
            right: Box::new(if on_left { *w0->right } else { child2 }),
        }),
        // what the recursive call ensured, for the child outline
        post.arena_inv(),
        post.root == pre.root,
        sub_matches(post.node_slots@, if on_left {
            pre.node_slots@[idx as int].unwrap().l
        } else {
            pre.node_slots@[idx as int].unwrap().r
        }, child2),
        outline_wf(child2),
        outline_map(child2) == outline_map(if on_left {
            *w0->left
        } else {
            *w0->right
        }).insert(k@, v),
        outline_slots(if on_left {
            *w0->left
        } else {
            *w0->right
        }).subset_of(outline_slots(child2)),
        pre.node_slots@.len() <= post.node_slots@.len(),
        forall|i: int|
            0 <= i < pre.node_slots@.len() && !outline_slots(child2).contains(i as usize)
                ==> post.node_slots@[i] == pre.node_slots@[i],
        forall|s: usize|
            outline_slots(child2).contains(s) && !outline_slots(if on_left {
                *w0->left
            } else {
                *w0->right
            }).contains(s) ==> (s as int) >= pre.node_slots@.len() || pre.node_slots@[s as int] is None,
        forall|i: int|
            0 <= i < post.node_slots@.len() && (#[trigger] post.node_slots@[i]) is Some ==> (i
                < pre.node_slots@.len() && pre.node_slots@[i] is Some) || outline_slots(
                child2,
            ).contains(i as usize),
    ensures
        sub_matches(post.node_slots@, Some(idx), w2),
        outline_wf(w2),
        outline_map(w2) == outline_map(w0).insert(k@, v),
        outline_slots(w2) == outline_slots(w0).union(outline_slots(child2)),
        outline_map(w0).dom().contains(k@) == outline_map(if on_left {
            *w0->left
        } else {
            *w0->right
        }).dom().contains(k@),
        outline_map(if on_left {
            *w0->left
        } else {
            *w0->right
        }).dom().contains(k@) ==> outline_map(w0)[k@] == outline_map(if on_left {
            *w0->left
        } else {
            *w0->right
        })[k@],
        outline_slots(w0).subset_of(outline_slots(w2)),
        forall|i: int|
            0 <= i < pre.node_slots@.len() && !outline_slots(w2).contains(i as usize)
                ==> post.node_slots@[i] == pre.node_slots@[i],
        forall|s: usize|
            outline_slots(w2).contains(s) && !outline_slots(w0).contains(s) ==> (s as int)
                >= pre.node_slots@.len() || pre.node_slots@[s as int] is None,
        forall|i: int|
            0 <= i < post.node_slots@.len() && (#[trigger] post.node_slots@[i]) is Some ==> (i
                < pre.node_slots@.len() && pre.node_slots@[i] is Some) || outline_slots(
                w2,
            ).contains(i as usize),
{
    let s1 = pre.node_slots@;
    let s2 = post.node_slots@;
    let key0 = w0->key;
    let lw = *w0->left;
    let rw = *w0->right;
    let gone = if on_left {
        lw
    } else {
        rw
    };
    let kept = if on_left {
        rw
    } else {
        lw
    };
    lemma_matches_live(s1, Some(idx), w0);
    lemma_matches_live(s1, if on_left {
        s1[idx as int].unwrap().r
    } else {
        s1[idx as int].unwrap().l
    }, kept);
    lemma_lt_ne::<K>(if on_left {
        k@
    } else {
        key0@
    }, if on_left {
        key0@
    } else {
        k@
    });
    // slots new to the child outline were vacant, so they collide with
    // nothing that was live: not with this node, not with the kept child
    assert forall|s: usize| #[trigger]
        outline_slots(child2).contains(s) implies s != idx && !outline_slots(kept).contains(
        s,
    ) by {
        if outline_slots(gone).contains(s) {
            assert(s != idx && !outline_slots(kept).contains(s));
        } else {
            assert((s as int) >= s1.len() || s1[s as int] is None);
            if s == idx || outline_slots(kept).contains(s) {
                assert((s as int) < s1.len() && s1[s as int] is Some);
            }
        }
    }
    // the node's own slot is untouched, and the kept child still matches
    assert(s2[idx as int] == s1[idx as int]);
    assert forall|s: usize| #[trigger]
        outline_slots(kept).contains(s) implies s2[s as int] == s1[s as int] by {}
    lemma_matches_frame(s1, s2, if on_left {
        s1[idx as int].unwrap().r
    } else {
        s1[idx as int].unwrap().l
    }, kept);
    assert(sub_matches(s2, Some(idx), w2));
    // the rebuilt outline keeps the discipline
    assert forall|e: K::V| #[trigger] outline_map(child2).dom().contains(e) implies (if on_left {
        K::lt(e, key0@)
    } else {
        K::lt(key0@, e)
    }) by {
        assert(outline_map(child2) == outline_map(gone).insert(k@, v));
        if e != k@ {
            assert(outline_map(gone).dom().contains(e));
        }
    }
    assert(outline_wf(w2));
    // the key cannot live under the kept child
    assert(!outline_map(kept).dom().contains(k@)) by {
        if outline_map(kept).dom().contains(k@) {
            K::lt_total(k@, key0@);
        }
    }
    assert(outline_map(w2) =~= outline_map(w0).insert(k@, v));
    assert(outline_slots(w2) =~= outline_slots(w0).union(outline_slots(child2)));
}

} // verus!
