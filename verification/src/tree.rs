//! The tree itself: an arena of node records under stable handles.

use indexmap::IndexSet;
use std::collections::hash_map::RandomState;
use std::collections::HashMap;
use vstd::prelude::*;
use crate::handles::{
    barred_handles, handles_clear, handles_insert, handles_remove, handles_with_capacity,
    live_handles, slot_of, Handles, NULL_HANDLE,
    MAX_HINT, MAX_NODES,
};
use crate::lemmas::{
    lemma_children_cover, lemma_depth_below_len, lemma_dropped, lemma_moved_subtree,
    lemma_moved_wf, lemma_nearest_is_first, lemma_open_top, lemma_remove_as_reorder,
    lemma_root_above_all, lemma_rotated_subtree, lemma_rotated_wf, lemma_subtree_depth,
    lemma_subtree_trans, lemma_subtree_up, lemma_swap_out, lemma_with_child_wf,
    lemma_with_children_wf, lemma_with_value_wf, lemma_without,
};
use crate::laws::law_rebase;
use crate::model::{NodeView, Relationship, TreeView};
use crate::ordered_set::{
    minus, set_clone, set_contains, set_difference, set_insert, set_items, set_shift_remove,
    set_swap_remove, set_to_vec, set_with_capacity,
};
use vstd::set_lib::lemma_len_subset;
use vstd::std_specs::hash::spec_hash_map_iter;
use vstd::std_specs::iter::IteratorSpec;

verus! {

broadcast use vstd::std_specs::hash::group_hash_axioms;

/// The record that the arena keeps of one node.
struct InnerNode<V> {
    parent_key: Option<u64>,
    child_keys: IndexSet<u64, RandomState>,
    depth: usize,
    value: V,
}

impl<V> InnerNode<V> {
    spec fn model(self) -> NodeView<V> {
        NodeView {
            value: self.value,
            parent: self.parent_key,
            children: set_items(self.child_keys),
            depth: self.depth as nat,
        }
    }
}

impl<V: Clone> Clone for InnerNode<V> {
    fn clone(&self) -> (copy: Self) {
        InnerNode {
            parent_key: self.parent_key,
            child_keys: set_clone(&self.child_keys),
            depth: self.depth,
            value: self.value.clone(),
        }
    }
}

/// A read-only look at one node of a tree.
#[derive(Clone, Copy)]
pub struct Node<'a, V> {
    /// The parent of the node; the root has none.
    pub parent_key: Option<u64>,
    /// The children of the node, in their order.
    pub child_keys: &'a IndexSet<u64, RandomState>,
    /// How many ancestors the node has.
    pub depth: usize,
    /// The value that the node carries.
    pub value: &'a V,
}

impl<'a, V> View for Node<'a, V> {
    type V = NodeView<V>;

    open spec fn view(&self) -> NodeView<V> {
        NodeView {
            value: *self.value,
            parent: self.parent_key,
            children: set_items(*self.child_keys),
            depth: self.depth as nat,
        }
    }
}

/// A look at one node of a tree through which its value can be changed.
pub struct NodeMut<'a, V> {
    /// The parent of the node; the root has none.
    pub parent_key: Option<u64>,
    /// The children of the node, in their order.
    pub child_keys: &'a IndexSet<u64, RandomState>,
    /// How many ancestors the node has.
    pub depth: usize,
    /// The value that the node carries.
    pub value: &'a mut V,
}

/// Calls `HashMap::get_mut`. What comes back is the record under `key`; the
/// table ends up with whatever the caller leaves in that record, and is
/// otherwise unchanged.
#[verifier::external_body]
fn table_get_mut<'a, V>(table: &'a mut HashMap<u64, InnerNode<V>>, key: u64) -> (slot: Option<
    &'a mut InnerNode<V>,
>)
    ensures
        match slot {
            None => !old(table)@.contains_key(key) && final(table)@ == old(table)@,
            Some(node) => old(table)@.contains_key(key) && *node == old(table)@[key] && final(table)@ == old(table)@.insert(key, *final(node)),
        },
{
    table.get_mut(&key)
}

/// Walks `HashMap::iter_mut` and collects what it yields. Every record of the
/// table comes out once, with its key; the table ends up with whatever the
/// caller leaves in the records, under the same keys.
#[verifier::external_body]
fn table_iter_mut<'a, V>(table: &'a mut HashMap<u64, InnerNode<V>>) -> (slots: Vec<
    (u64, &'a mut InnerNode<V>),
>)
    ensures
        slots@.len() == old(table)@.dom().len(),
        forall|i: int|
            0 <= i < slots@.len() ==> old(table)@.contains_key((#[trigger] slots@[i]).0)
                && *slots@[i].1 == old(table)@[slots@[i].0],
        forall|i: int, j: int|
            0 <= i < j < slots@.len() ==> (#[trigger] slots@[i]).0 != (#[trigger] slots@[j]).0,
        forall|k: u64| #[trigger]
            old(table)@.contains_key(k) ==> exists|i: int|
                0 <= i < slots@.len() && (#[trigger] slots@[i]).0 == k,
        final(table)@.dom() == old(table)@.dom(),
        forall|i: int|
            0 <= i < slots@.len() ==> final(table)@[(#[trigger] slots@[i]).0] == *final(slots@[i].1),
{
    table.iter_mut().map(|(key, node)| (*key, node)).collect()
}

/// An arbitrary-arity tree whose nodes are reached by stable handles.
///
/// The handles are granted by a slot map; the record of each node is kept in a
/// table under its handle.
pub struct Tree<V> {
    root_key: Option<u64>,
    handles: Handles,
    nodes: HashMap<u64, InnerNode<V>>,
}

/// The tree that a root and a table of records stand for.
spec fn tree_of<V>(root: Option<u64>, table: Map<u64, InnerNode<V>>) -> TreeView<V> {
    TreeView {
        root,
        nodes: Map::new(|k: u64| table.contains_key(k), |k: u64| table[k].model()),
    }
}

/// A record that gets another value stands for the same node with that value.
proof fn lemma_value_changed<V>(
    root: Option<u64>,
    table: Map<u64, InnerNode<V>>,
    key: u64,
    node: InnerNode<V>,
)
    requires
        table.contains_key(key),
        tree_of(root, table).wf(),
        node.parent_key == table[key].parent_key,
        node.child_keys == table[key].child_keys,
        node.depth == table[key].depth,
    ensures
        tree_of(root, table.insert(key, node)) == tree_of(root, table).with_value(key, node.value),
        tree_of(root, table.insert(key, node)).wf(),
        table.insert(key, node).dom() == table.dom(),
{
    let orig = tree_of(root, table);
    lemma_with_value_wf(orig, key, node.value);
    assert(table.insert(key, node).dom() =~= table.dom());
    assert(tree_of(root, table.insert(key, node)).nodes =~= orig.with_value(key, node.value).nodes);
}

/// The two tables hold the same keys, and under each key records that differ
/// in the value at most.
spec fn same_links<V>(before: Map<u64, InnerNode<V>>, after: Map<u64, InnerNode<V>>) -> bool {
    &&& after.dom() == before.dom()
    &&& forall|k: u64| #[trigger]
        before.contains_key(k) ==> after[k].parent_key == before[k].parent_key
            && after[k].child_keys == before[k].child_keys && after[k].depth == before[k].depth
}

/// Records that get other values stand for the same tree with those values.
proof fn lemma_values_changed<V>(
    root: Option<u64>,
    before: Map<u64, InnerNode<V>>,
    after: Map<u64, InnerNode<V>>,
)
    requires
        tree_of(root, before).wf(),
        same_links(before, after),
    ensures
        tree_of(root, after).wf(),
        tree_of(root, after).nodes.dom() == tree_of(root, before).nodes.dom(),
{
    let t = tree_of(root, before);
    let u = tree_of(root, after);
    assert(u.nodes.dom() =~= t.nodes.dom());
    assert forall|d: u64| #[trigger] u.nodes.contains_key(d) implies u.node_ok(d) by {
        assert(t.node_ok(d));
        assert(before.contains_key(d));
        let n = u.nodes[d];
        assert forall|i: int| 0 <= i < n.children.len() implies u.is_child(
            #[trigger] n.children[i],
            d,
        ) by {
            assert(t.is_child(t.children(d)[i], d));
            assert(before.contains_key(t.children(d)[i]));
        }
        if let Some(p) = n.parent {
            assert(before.contains_key(p));
        }
    }
    if let Some(r) = root {
        assert(before.contains_key(r));
    }
}

impl<V> View for Tree<V> {
    type V = TreeView<V>;

    closed spec fn view(&self) -> TreeView<V> {
        tree_of(self.root_key, self.nodes@)
    }
}

/// A capacity hint, cut down to what is ever preallocated.
fn clamp_hint(capacity: usize) -> (hint: usize)
    ensures
        hint == if capacity > MAX_HINT {
            MAX_HINT
        } else {
            capacity
        },
{
    if capacity > MAX_HINT {
        MAX_HINT
    } else {
        capacity
    }
}

impl<V> Tree<V> {
    /// The handles that the slot map holds are those of the table.
    pub closed spec fn rep_ok(&self) -> bool {
        &&& live_handles(self.handles) == self.nodes@.dom()
        &&& live_handles(self.handles).subset_of(barred_handles(self.handles))
        &&& !live_handles(self.handles).contains(NULL_HANDLE)
    }

    /// The handles that the tree cannot grant next: those of its nodes, and
    /// for each free slot of the arena the handle that held it last. A handle
    /// that has just become invalid is among them, so the next node does not
    /// get it.
    pub closed spec fn barred(&self) -> Set<u64> {
        barred_handles(self.handles)
    }

    /// The invariant of the tree. The null handle is never a node, and every
    /// node is barred.
    pub open spec fn wf(&self) -> bool {
        &&& self.rep_ok()
        &&& self@.wf()
        &&& !self@.contains(NULL_HANDLE)
        &&& self@.nodes.dom().subset_of(self.barred())
    }

    /// A new, empty tree with room for `capacity` nodes.
    pub fn with_capacity(capacity: usize) -> (tree: Self)
        ensures
            tree.wf(),
            tree@ == TreeView::<V>::empty(),
    {
        let hint = clamp_hint(capacity);
        let tree = Tree {
            root_key: None,
            handles: handles_with_capacity(hint),
            nodes: HashMap::with_capacity(hint),
        };
        assert(tree@.nodes =~= Map::<u64, NodeView<V>>::empty());
        tree
    }

    /// Whether `key` is the handle of a node of this tree.
    pub fn contains(&self, key: u64) -> (found: bool)
        requires
            self.wf(),
        ensures
            found == self@.contains(key),
            key == NULL_HANDLE ==> !found,
    {
        self.nodes.contains_key(&key)
    }

    /// Whether the tree has no node.
    pub fn is_empty(&self) -> (empty: bool)
        requires
            self.wf(),
        ensures
            empty == (self@.len() == 0),
            empty == self@.root.is_none(),
    {
        assert(self@.nodes.dom() =~= self.nodes@.dom());
        self.nodes.len() == 0
    }

    /// The number of nodes.
    pub fn len(&self) -> (n: usize)
        requires
            self.wf(),
        ensures
            n == self@.len(),
    {
        assert(self@.nodes.dom() =~= self.nodes@.dom());
        self.nodes.len()
    }

    /// The handle of the root; an empty tree has none.
    pub fn root_key(&self) -> (root: Option<u64>)
        requires
            self.wf(),
        ensures
            root == self@.root,
    {
        self.root_key
    }

    /// Takes every node out of the arena. The handles that were live stay
    /// barred.
    fn wipe(&mut self)
        ensures
            final(self).wf(),
            final(self).barred() == old(self).barred(),
            final(self)@ == TreeView::<V>::empty(),
            live_handles(final(self).handles) == Set::<u64>::empty(),
    {
        self.root_key = None;
        handles_clear(&mut self.handles);
        self.nodes.clear();
        assert(self@.nodes =~= Map::<u64, NodeView<V>>::empty());
    }

    /// Takes every node out of the tree. Keeps the memory for reuse.
    pub fn clear(&mut self)
        ensures
            final(self).wf(),
            final(self).barred() == old(self).barred(),
            final(self)@ == TreeView::<V>::empty(),
    {
        self.wipe();
    }

    /// Makes `value` the root of the tree. Whatever the tree held before is
    /// discarded first, so the new root is the only node, and no handle that
    /// was valid before is valid afterwards.
    pub fn insert_root(&mut self, value: V) -> (key: u64)
        requires
            old(self).wf(),
        ensures
            final(self).wf(),
            !old(self).barred().contains(key),
            forall|other: u64|
                old(self).barred().contains(other) && slot_of(other) != slot_of(key)
                    ==> #[trigger] final(self).barred().contains(other),
            final(self)@ == TreeView::single(key, value),
            !old(self)@.contains(key),
    {
        self.insert_root_with_capacity(value, 0)
    }

    /// As `insert_root`, with room for `capacity` children of the new root.
    pub fn insert_root_with_capacity(&mut self, value: V, capacity: usize) -> (key: u64)
        requires
            old(self).wf(),
        ensures
            final(self).wf(),
            !old(self).barred().contains(key),
            forall|other: u64|
                old(self).barred().contains(other) && slot_of(other) != slot_of(key)
                    ==> #[trigger] final(self).barred().contains(other),
            final(self)@ == TreeView::single(key, value),
            !old(self)@.contains(key),
    {
        if self.root_key.is_some() {
            self.wipe();
        }
        proof {
            assert forall|k: u64| !self.nodes@.dom().contains(k) by {
                assert(!self@.nodes.contains_key(k));
            }
            assert(live_handles(self.handles) =~= Set::<u64>::empty());
        }
        let key = handles_insert(&mut self.handles);
        let node = InnerNode {
            parent_key: None,
            child_keys: set_with_capacity(clamp_hint(capacity)),
            depth: 0,
            value,
        };
        self.nodes.insert(key, node);
        self.root_key = Some(key);
        assert(self.nodes@.dom() =~= live_handles(self.handles));
        assert(self@.nodes =~= TreeView::single(key, value).nodes);
        assert(self@.node_ok(key));
        key
    }

    /// Puts `value` into the tree as the last child of `parent_key`. Nothing
    /// happens, and `None` comes back, if the tree has no such parent. Where
    /// it has, the tree must hold fewer than `MAX_NODES` nodes: the slot map
    /// that grants the handles has room for no more. The new handle is none
    /// of the barred ones.
    pub fn insert(&mut self, value: V, parent_key: u64) -> (key: Option<u64>)
        requires
            old(self).wf(),
            old(self)@.contains(parent_key) ==> old(self)@.len() < MAX_NODES,
        ensures
            final(self).wf(),
            match key {
                None => final(self).barred() == old(self).barred(),
                Some(k) => !old(self).barred().contains(k) && forall|other: u64|
                    old(self).barred().contains(other) && slot_of(other) != slot_of(k)
                        ==> #[trigger] final(self).barred().contains(other),
            },
            match key {
                None => !old(self)@.contains(parent_key) && final(self)@ == old(self)@,
                Some(k) => old(self)@.contains(parent_key) && !old(self)@.contains(k) && final(self)@ == old(self)@.with_child(parent_key, k, value),
            },
    {
        self.insert_with_capacity(value, parent_key, 0)
    }

    /// As `insert`, with room for `capacity` children of the new node.
    pub fn insert_with_capacity(&mut self, value: V, parent_key: u64, capacity: usize) -> (key:
        Option<u64>)
        requires
            old(self).wf(),
            old(self)@.contains(parent_key) ==> old(self)@.len() < MAX_NODES,
        ensures
            final(self).wf(),
            match key {
                None => final(self).barred() == old(self).barred(),
                Some(k) => !old(self).barred().contains(k) && forall|other: u64|
                    old(self).barred().contains(other) && slot_of(other) != slot_of(k)
                        ==> #[trigger] final(self).barred().contains(other),
            },
            match key {
                None => !old(self)@.contains(parent_key) && final(self)@ == old(self)@,
                Some(k) => old(self)@.contains(parent_key) && !old(self)@.contains(k) && final(self)@ == old(self)@.with_child(parent_key, k, value),
            },
    {
        let ghost before = self@;
        let ghost table = self.nodes@;
        assert(before.nodes.dom() =~= table.dom());
        match self.nodes.remove(&parent_key) {
            None => {
                assert(self.nodes@ =~= table);
                assert(self@.nodes =~= before.nodes);
                None
            },
            Some(mut parent) => {
                proof {
                    lemma_depth_below_len(before, parent_key);
                }
                let key = handles_insert(&mut self.handles);
                let depth = parent.depth + 1;
                set_insert(&mut parent.child_keys, key);
                self.nodes.insert(parent_key, parent);
                let node = InnerNode {
                    parent_key: Some(parent_key),
                    child_keys: set_with_capacity(clamp_hint(capacity)),
                    depth,
                    value,
                };
                self.nodes.insert(key, node);
                proof {
                    let after = before.with_child(parent_key, key, value);
                    assert(self.nodes@.dom() =~= table.dom().insert(key));
                    assert(self@.nodes =~= after.nodes);
                    lemma_with_child_wf(before, parent_key, key, value);
                }
                Some(key)
            },
        }
    }

    /// The node under `key`, if the tree has it.
    pub fn get(&self, key: u64) -> (node: Option<Node<'_, V>>)
        requires
            self.wf(),
        ensures
            match node {
                None => !self@.contains(key),
                Some(n) => self@.contains(key) && n@ == self@.nodes[key],
            },
    {
        match self.nodes.get(&key) {
            None => None,
            Some(inner) => Some(
                Node {
                    parent_key: inner.parent_key,
                    child_keys: &inner.child_keys,
                    depth: inner.depth,
                    value: &inner.value,
                },
            ),
        }
    }

    /// The parent of a node of the tree.
    fn parent_of(&self, key: u64) -> (parent: Option<u64>)
        requires
            self.wf(),
            self@.contains(key),
        ensures
            parent == self@.parent(key),
    {
        self.nodes.get(&key).unwrap().parent_key
    }

    /// How `key_1` and `key_2` stand to each other; `None` unless the tree has
    /// both.
    pub fn get_relationship(&self, key_1: u64, key_2: u64) -> (found: Option<Relationship<u64>>)
        requires
            self.wf(),
        ensures
            found == self@.relationship(key_1, key_2),
    {
        if self.nodes.contains_key(&key_1) && self.nodes.contains_key(&key_2) {
            Some(self.relationship_of(key_1, key_2))
        } else {
            None
        }
    }

    /// The relationship of two nodes of the tree. Walks up from `key_1` and
    /// records what it passes; then walks up from `key_2` until it meets
    /// `key_1` or a recorded node.
    fn relationship_of(&self, key_1: u64, key_2: u64) -> (found: Relationship<u64>)
        requires
            self.wf(),
            self@.contains(key_1),
            self@.contains(key_2),
        ensures
            Some(found) == self@.relationship(key_1, key_2),
    {
        if key_1 == key_2 {
            return Relationship::Same;
        }
        let ghost t = self@;
        let mut current = self.parent_of(key_1);
        let mut path = set_with_capacity(clamp_hint(self.nodes.len()));
        proof {
            assert(t.node_ok(key_1));
            if let Some(p) = current {
                assert(t.in_subtree(p, p));
            }
        }
        while current.is_some()
            invariant
                self.wf(),
                t == self@,
                t.contains(key_1),
                t.contains(key_2),
                key_1 != key_2,
                current matches Some(p) ==> t.is_ancestor(p, key_1),
                forall|x: u64| #[trigger]
                    set_items(path).contains(x) ==> t.is_ancestor(x, key_1) && x != key_2,
                forall|x: u64| #[trigger]
                    t.in_subtree(x, key_1) && x != key_1 ==> set_items(path).contains(x) || (
                    current matches Some(p) && t.in_subtree(x, p)),
            decreases
                    (match current {
                        Some(p) => t.depth(p) + 1,
                        None => 0,
                    }),
        {
            let above = current.unwrap();
            proof {
                lemma_subtree_depth(t, above, key_1);
                assert(t.node_ok(above));
            }
            if above == key_2 {
                return Relationship::Ancestral { ancestor_key: key_2, descendent_key: key_1 };
            }
            let ghost before = set_items(path);
            set_insert(&mut path, above);
            current = self.parent_of(above);
            proof {
                if current.is_some() {
                    lemma_subtree_up(t, above, key_1);
                }
                assert forall|x: u64| #[trigger] set_items(path).contains(x) implies t.is_ancestor(
                    x,
                    key_1,
                ) && x != key_2 by {
                    if !before.contains(x) {
                        assert(set_items(path) == before.push(above));
                        let i = choose|i: int|
                            0 <= i < set_items(path).len() && set_items(path)[i] == x;
                        if i < before.len() {
                            assert(before[i] == x);
                        }
                    }
                }
                assert forall|x: u64| #[trigger]
                    t.in_subtree(x, key_1) && x != key_1 implies set_items(path).contains(x) || (
                current matches Some(p) && t.in_subtree(x, p)) by {
                    if before.contains(x) {
                        let i = choose|i: int| 0 <= i < before.len() && before[i] == x;
                        assert(set_items(path)[i] == x);
                    } else if x == above {
                        if set_items(path) == before.push(above) {
                            assert(set_items(path)[before.len() as int] == above);
                        }
                    } else {
                        assert(t.in_subtree(x, above));
                    }
                }
            }
        }
        proof {
            assert(t.node_ok(key_2));
            if t.parent(key_2).is_none() {
                lemma_root_above_all(t, key_1);
            }
        }
        let mut above = self.parent_of(key_2).unwrap();
        proof {
            assert(t.in_subtree(above, above));
        }
        loop
            invariant
                self.wf(),
                t == self@,
                t.contains(key_1),
                t.contains(key_2),
                key_1 != key_2,
                !t.in_subtree(key_2, key_1),
                t.is_ancestor(above, key_2),
                t.nearest_common(key_1, key_2) == t.nearest_common(key_1, above),
                forall|x: u64| #[trigger]
                    set_items(path).contains(x) <==> t.in_subtree(x, key_1) && x != key_1,
            decreases t.depth(above),
        {
            proof {
                lemma_subtree_depth(t, above, key_2);
                assert(t.node_ok(above));
            }
            if above == key_1 {
                return Relationship::Ancestral { ancestor_key: key_1, descendent_key: key_2 };
            }
            if set_contains(&path, above) {
                proof {
                    lemma_nearest_is_first(t, key_1, key_2);
                }
                return Relationship::Siblings { common_ancestor_key: above };
            }
            proof {
                if t.parent(above).is_none() {
                    lemma_root_above_all(t, key_1);
                }
                lemma_subtree_up(t, above, key_2);
            }
            above = self.parent_of(above).unwrap();
        }
    }

    /// Takes the subtrees of `to_visit` out of the arena, one node at a time:
    /// a node leaves, and its children wait in its place. `orig` is the tree
    /// as it was, and `target` is what has left it once the walk is over.
    fn prune(
        &mut self,
        to_visit: Vec<u64>,
        Ghost(orig): Ghost<TreeView<V>>,
        Ghost(target): Ghost<Set<u64>>,
    )
        requires
            orig.wf(),
            old(self).rep_ok(),
            orig.apart(to_visit@),
            forall|i: int| 0 <= i < to_visit@.len() ==> orig.contains(#[trigger] to_visit@[i]),
            orig.under_set(to_visit@).subset_of(target),
            old(self)@.nodes == orig.nodes.remove_keys(
                target.difference(orig.under_set(to_visit@)),
            ),
        ensures
            final(self).rep_ok(),
            final(self).barred() == old(self).barred(),
            final(self)@.root == old(self)@.root,
            final(self)@.nodes == orig.nodes.remove_keys(target),
    {
        let mut to_visit = to_visit;
        while to_visit.len() > 0
            invariant
                orig.wf(),
                self.rep_ok(),
                self.root_key == old(self).root_key,
                self.barred() == old(self).barred(),
                orig.apart(to_visit@),
                forall|i: int| 0 <= i < to_visit@.len() ==> orig.contains(#[trigger] to_visit@[i]),
                orig.under_set(to_visit@).subset_of(target),
                self@.nodes == orig.nodes.remove_keys(
                    target.difference(orig.under_set(to_visit@)),
                ),
            decreases self.nodes@.dom().len(),
        {
            let ghost tops = to_visit@;
            let ghost table = self.nodes@;
            let ghost before = self@;
            let key = to_visit.pop().unwrap();
            proof {
                lemma_open_top(orig, tops);
                assert(orig.in_subtree(tops[tops.len() - 1], key));
                assert(orig.under(tops, key));
                assert(self@.nodes.contains_key(key));
            }
            let node = self.nodes.remove(&key).unwrap();
            handles_remove(&mut self.handles, key);
            let mut kids = set_to_vec(&node.child_keys);
            to_visit.append(&mut kids);
            proof {
                let next = tops.drop_last() + orig.children(key);
                assert(node.model() == before.nodes[key]);
                assert(node.model() == orig.nodes[key]);
                assert(to_visit@ =~= next);
                assert(orig.under_set(next) =~= orig.under_set(tops).remove(key));
                assert(self.nodes@.dom() =~= table.dom().remove(key));
                assert(target.contains(key));
                let gone = target.difference(orig.under_set(next));
                assert(gone =~= target.difference(orig.under_set(tops)).insert(key));
                assert(self@.nodes.dom() =~= before.nodes.dom().remove(key));
                assert forall|d: u64| #[trigger] self@.nodes.contains_key(d) implies self@.nodes[d]
                    == orig.nodes[d] by {
                    assert(before.nodes.contains_key(d));
                    assert(self.nodes@[d] == table[d]);
                    assert(self@.nodes[d] == self.nodes@[d].model());
                    assert(before.nodes[d] == table[d].model());
                    assert(before.nodes[d] == orig.nodes[d]);
                }
                assert(self@.nodes =~= orig.nodes.remove_keys(gone));
            }
        }
        proof {
            assert(orig.under_set(to_visit@) =~= Set::<u64>::empty());
            assert(target.difference(orig.under_set(to_visit@)) =~= target);
        }
    }

    /// Takes the node under `key` out of the tree, and all its descendants
    /// with it. Returns the value of the node, or `None` if the tree does not
    /// have it. `size_hint` is a guess at the number of descendants: it
    /// sizes a buffer and changes nothing else.
    pub fn remove(&mut self, key: u64, size_hint: Option<usize>) -> (value: Option<V>)
        requires
            old(self).wf(),
        ensures
            final(self).wf(),
            final(self).barred() == old(self).barred(),
            final(self)@ == old(self)@.remove_subtree(key),
            match value {
                None => !old(self)@.contains(key),
                Some(v) => old(self)@.contains(key) && v == old(self)@.nodes[key].value,
            },
    {
        let ghost orig = self@;
        match self.root_key {
            None => None,
            Some(root_key) => {
                if key == root_key {
                    let node = self.nodes.remove(&root_key).unwrap();
                    self.clear();
                    Some(node.value)
                } else {
                    self.remove_non_root(key, size_hint)
                }
            },
        }
    }

    /// `remove` for a node that is not the root.
    fn remove_non_root(&mut self, key: u64, size_hint: Option<usize>) -> (value: Option<V>)
        requires
            old(self).wf(),
            old(self)@.root != Some(key),
        ensures
            final(self).wf(),
            final(self).barred() == old(self).barred(),
            final(self)@ == old(self)@.remove_subtree(key),
            match value {
                None => !old(self)@.contains(key),
                Some(v) => old(self)@.contains(key) && v == old(self)@.nodes[key].value,
            },
    {
        let ghost orig = self@;
        let ghost table = self.nodes@;
        match self.nodes.remove(&key) {
            None => {
                assert(self.nodes@ =~= table);
                assert(self@.nodes =~= orig.nodes);
                None
            },
            Some(node) => {
                handles_remove(&mut self.handles, key);
                let hint = match size_hint {
                    Some(hint) => hint,
                    None => self.nodes.len(),
                };
                let mut to_visit: Vec<u64> = Vec::with_capacity(clamp_hint(hint));
                let mut kids = set_to_vec(&node.child_keys);
                to_visit.append(&mut kids);
                let parent_key = node.parent_key.unwrap();
                proof {
                    lemma_remove_as_reorder(orig, key);
                    assert(node.model() == orig.nodes[key]);
                    assert(to_visit@ =~= orig.children(key));
                    assert(orig.node_ok(key));
                    lemma_children_cover(orig, key);
                    assert(orig.in_subtree(key, key));
                    assert(orig.subtree(key).difference(orig.under_set(to_visit@)) =~= set![key]);
                    assert(self.nodes@.dom() =~= table.dom().remove(key));
                    assert(self@.nodes =~= orig.nodes.remove_keys(set![key]));
                }
                self.prune(to_visit, Ghost(orig), Ghost(orig.subtree(key)));
                proof {
                    if orig.in_subtree(key, parent_key) {
                        lemma_subtree_depth(orig, key, parent_key);
                    }
                    assert(self@.nodes.contains_key(parent_key));
                }
                let ghost pruned = self.nodes@;
                let ghost mid = self@;
                let mut parent = self.nodes.remove(&parent_key).unwrap();
                set_shift_remove(&mut parent.child_keys, key);
                self.nodes.insert(parent_key, parent);
                proof {
                    let goal = orig.remove_subtree(key);
                    assert(self.nodes@.dom() =~= pruned.dom());
                    assert(mid.nodes[parent_key] == pruned[parent_key].model());
                    assert(self@.nodes.dom() =~= goal.nodes.dom());
                    assert forall|d: u64| #[trigger] self@.nodes.contains_key(d) implies self@.nodes[d]
                        == goal.nodes[d] by {
                        assert(mid.nodes.contains_key(d));
                        if d != parent_key {
                            assert(self.nodes@[d] == pruned[d]);
                            assert(mid.nodes[d] == pruned[d].model());
                        }
                    }
                    assert(self@.nodes =~= goal.nodes);
                }
                Some(node.value)
            },
        }
    }

    /// Makes `reordered_keys` the children of `key`. The set must name
    /// children of `key` only; if it names anything else, or the tree does not
    /// have `key`, nothing happens and `false` comes back. The children that
    /// the set leaves out are removed from the tree with their subtrees.
    pub fn reorder_children_with(
        &mut self,
        key: u64,
        reordered_keys: IndexSet<u64, RandomState>,
    ) -> (done: bool)
        requires
            old(self).wf(),
        ensures
            final(self).wf(),
            final(self).barred() == old(self).barred(),
            done == old(self)@.can_reorder(key, set_items(reordered_keys)),
            final(self)@ == if done {
                old(self)@.with_children(key, set_items(reordered_keys))
            } else {
                old(self)@
            },
    {
        let ghost orig = self@;
        let ghost order = set_items(reordered_keys);
        let to_remove = match self.nodes.get(&key) {
            None => {
                return false;
            },
            Some(node) => {
                let wanted = set_to_vec(&reordered_keys);
                let mut i: usize = 0;
                while i < wanted.len()
                    invariant
                        self.wf(),
                        self@ == orig,
                        orig == old(self)@,
                        order == set_items(reordered_keys),
                        wanted@ == order,
                        orig.contains(key),
                        set_items(node.child_keys) == orig.children(key),
                        forall|j: int| 0 <= j < i ==> orig.children(key).contains(#[trigger] order[j]),
                    decreases wanted.len() - i,
                {
                    if !set_contains(&node.child_keys, wanted[i]) {
                        assert(!orig.children(key).contains(order[i as int]));
                        return false;
                    }
                    i += 1;
                }
                set_difference(&node.child_keys, &reordered_keys)
            },
        };
        proof {
            lemma_dropped(orig, key, order);
            lemma_with_children_wf(orig, key, order);
            let dropped = minus(orig.children(key), order);
            assert(orig.under_set(dropped).difference(orig.under_set(dropped)) =~= Set::<
                u64,
            >::empty());
            assert(self@.nodes =~= orig.nodes.remove_keys(Set::<u64>::empty()));
        }
        self.prune(to_remove, Ghost(orig), Ghost(orig.under_set(to_remove@)));
        let ghost pruned = self.nodes@;
        let ghost mid = self@;
        assert(self@.nodes.contains_key(key));
        let mut node = self.nodes.remove(&key).unwrap();
        node.child_keys = reordered_keys;
        self.nodes.insert(key, node);
        proof {
            let goal = orig.with_children(key, order);
            assert(self.nodes@.dom() =~= pruned.dom());
            assert(mid.nodes[key] == pruned[key].model());
            assert(self@.nodes.dom() =~= goal.nodes.dom());
            assert forall|d: u64| #[trigger] self@.nodes.contains_key(d) implies self@.nodes[d]
                == goal.nodes[d] by {
                assert(mid.nodes.contains_key(d));
                if d != key {
                    assert(self.nodes@[d] == pruned[d]);
                    assert(mid.nodes[d] == pruned[d].model());
                }
            }
            assert(self@.nodes =~= goal.nodes);
        }
        true
    }

    /// Takes the record of a node out of the table, to be changed and put back.
    fn take_node(&mut self, key: u64) -> (node: InnerNode<V>)
        requires
            old(self)@.contains(key),
        ensures
            node.model() == old(self)@.nodes[key],
            final(self)@.nodes == old(self)@.nodes.remove(key),
            final(self)@.root == old(self)@.root,
            final(self).handles == old(self).handles,
            final(self).nodes@.dom() == old(self).nodes@.dom().remove(key),
    {
        let ghost table = self.nodes@;
        let node = self.nodes.remove(&key).unwrap();
        proof {
            assert(self@.nodes =~= old(self)@.nodes.remove(key));
        }
        node
    }

    /// Puts a record into the table.
    fn put_node(&mut self, key: u64, node: InnerNode<V>)
        ensures
            final(self)@.nodes == old(self)@.nodes.insert(key, node.model()),
            final(self)@.root == old(self)@.root,
            final(self).handles == old(self).handles,
            final(self).nodes@.dom() == old(self).nodes@.dom().insert(key),
    {
        self.nodes.insert(key, node);
        proof {
            assert(self@.nodes =~= old(self)@.nodes.insert(key, node.model()));
        }
    }

    /// The depth that the table has for a node.
    fn depth_of(&self, key: u64) -> (depth: usize)
        requires
            self@.contains(key),
        ensures
            depth == self@.depth(key),
    {
        self.nodes.get(&key).unwrap().depth
    }

    /// Writes the depth of every node of the subtree of `start`, walking down
    /// from `start`: a node gets the depth of its parent and one. `goal` is
    /// the tree that results; the arena may differ from it only in the depths
    /// inside the subtree. `size_hint` sizes the buffer of the walk.
    fn restamp(&mut self, start: u64, size_hint: Option<usize>, Ghost(goal): Ghost<TreeView<V>>)
        requires
            goal.wf(),
            goal.contains(start),
            old(self).rep_ok(),
            old(self)@.matches_above(goal, seq![start]),
        ensures
            final(self).rep_ok(),
            final(self).handles == old(self).handles,
            final(self)@ == goal,
    {
        let count = self.nodes.len();
        let hint = match size_hint {
            Some(hint) => hint,
            None => count,
        };
        let mut to_visit: Vec<u64> = Vec::with_capacity(clamp_hint(hint));
        to_visit.push(start);
        proof {
            assert(to_visit@ =~= seq![start]);
            assert(self@.nodes.dom() =~= self.nodes@.dom());
        }
        while to_visit.len() > 0
            invariant
                goal.wf(),
                goal.len() <= usize::MAX,
                self.rep_ok(),
                self.handles == old(self).handles,
                goal.apart(to_visit@),
                forall|i: int| 0 <= i < to_visit@.len() ==> goal.contains(#[trigger] to_visit@[i]),
                self@.matches_above(goal, to_visit@),
            decreases goal.under_set(to_visit@).len(),
        {
            let ghost tops = to_visit@;
            let ghost before = self@;
            let ghost keys = self.nodes@.dom();
            let key = to_visit.pop().unwrap();
            proof {
                assert(keys =~= before.nodes.dom());
                lemma_open_top(goal, tops);
                lemma_depth_below_len(goal, key);
                assert(goal.node_ok(key));
                assert(goal.nodes.contains_key(key));
                assert(goal.in_subtree(tops[tops.len() - 1], key));
                assert(goal.under(tops, key));
                if let Some(q) = goal.parent(key) {
                    assert(goal.nodes.contains_key(q));
                    if goal.under(tops, q) {
                        let i = choose|i: int|
                            0 <= i < tops.len() && goal.in_subtree(#[trigger] tops[i], q);
                        assert(goal.in_subtree(tops[i], key));
                        lemma_subtree_depth(goal, key, q);
                    }
                }
            }
            let mut node = self.take_node(key);
            let depth = match node.parent_key {
                None => 0,
                Some(parent_key) => self.depth_of(parent_key) + 1,
            };
            node.depth = depth;
            let mut kids = set_to_vec(&node.child_keys);
            self.put_node(key, node);
            to_visit.append(&mut kids);
            proof {
                let next = tops.drop_last() + goal.children(key);
                assert(to_visit@ =~= next);
                assert(self.nodes@.dom() =~= keys);
                assert(self@.nodes.dom() =~= goal.nodes.dom());
                assert(goal.under_set(next) =~= goal.under_set(tops).remove(key));
                assert(goal.under_set(tops).subset_of(goal.nodes.dom())) by {
                    assert forall|d: u64| goal.under_set(tops).contains(d) implies goal.nodes.dom().contains(
                        d,
                    ) by {
                        let i = choose|i: int|
                            0 <= i < tops.len() && goal.in_subtree(#[trigger] tops[i], d);
                    }
                }
                lemma_len_subset(goal.under_set(tops), goal.nodes.dom());
            }
        }
        proof {
            assert(self@.nodes =~= goal.nodes);
        }
    }

    /// Moves `key`, with its subtree, from its parent to the end of the
    /// children of `new_parent_key`, which lies outside that subtree. Does
    /// nothing, and says so, if `new_parent_key` is the parent already.
    fn rebase_generic(&mut self, key: u64, new_parent_key: u64, size_hint: Option<usize>) -> (done:
        bool)
        requires
            old(self).wf(),
            old(self)@.contains(key),
            old(self)@.contains(new_parent_key),
            key != new_parent_key,
            !old(self)@.in_subtree(key, new_parent_key),
        ensures
            final(self).wf(),
            final(self).barred() == old(self).barred(),
            done == old(self)@.can_rebase(key, new_parent_key),
            final(self)@ == old(self)@.rebased(key, new_parent_key),
    {
        let ghost orig = self@;
        let ghost goal = orig.moved(key, new_parent_key);
        proof {
            lemma_root_above_all(orig, new_parent_key);
            assert(orig.node_ok(key));
        }
        let current_parent_key = self.parent_of(key).unwrap();
        if current_parent_key == new_parent_key {
            return false;
        }
        proof {
            lemma_moved_wf(orig, key, new_parent_key);
            assert(orig.node_ok(key));
            assert(orig.node_ok(new_parent_key));
            assert(goal.nodes.dom() =~= self.nodes@.dom());
            assert(goal.nodes.contains_key(key));
            lemma_depth_below_len(goal, key);
            assert(goal.node_ok(key));
        }
        let count = self.nodes.len();
        let mut node = self.take_node(key);
        let old_parent_key = node.parent_key.unwrap();
        let old_depth = node.depth;
        node.parent_key = Some(new_parent_key);
        self.put_node(key, node);
        let mut old_parent = self.take_node(old_parent_key);
        set_shift_remove(&mut old_parent.child_keys, key);
        self.put_node(old_parent_key, old_parent);
        let mut new_parent = self.take_node(new_parent_key);
        proof {
            lemma_without(orig.children(old_parent_key), key);
            if new_parent_key != old_parent_key && orig.children(new_parent_key).contains(key) {
                let i = choose|i: int|
                    0 <= i < orig.children(new_parent_key).len() && orig.children(
                        new_parent_key,
                    )[i] == key;
                assert(orig.is_child(orig.children(new_parent_key)[i], new_parent_key));
            }
        }
        set_insert(&mut new_parent.child_keys, key);
        let new_depth = new_parent.depth + 1;
        self.put_node(new_parent_key, new_parent);
        proof {
            assert(self.nodes@.dom() =~= old(self).nodes@.dom());
            assert(self@.nodes.dom() =~= goal.nodes.dom());
            assert forall|d: u64| #[trigger] goal.nodes.contains_key(d) implies {
                &&& self@.nodes[d].value == goal.nodes[d].value
                &&& self@.nodes[d].parent == goal.nodes[d].parent
                &&& self@.nodes[d].children == goal.nodes[d].children
                &&& self@.nodes[d].depth == orig.nodes[d].depth
                &&& !goal.under(seq![key], d) ==> self@.nodes[d].depth == goal.nodes[d].depth
            } by {
                if orig.in_subtree(key, d) {
                    lemma_moved_subtree(orig, key, new_parent_key, d);
                    assert(goal.in_subtree(seq![key][0], d));
                }
            }
        }
        if new_depth != old_depth {
            self.restamp(key, size_hint, Ghost(goal));
        } else {
            proof {
                assert(self@.nodes =~= goal.nodes);
            }
        }
        true
    }

    /// Moves `key` under its own descendant `new_parent_key`, which takes the
    /// place that `key` had.
    fn rebase_onto_descendent(&mut self, key: u64, new_parent_key: u64, size_hint: Option<usize>)
        requires
            old(self).wf(),
            key != new_parent_key,
            old(self)@.in_subtree(key, new_parent_key),
        ensures
            final(self).wf(),
            final(self).barred() == old(self).barred(),
            old(self)@.can_rebase(key, new_parent_key),
            final(self)@ == old(self)@.rotated(key, new_parent_key),
    {
        let ghost orig = self@;
        let ghost goal = orig.rotated(key, new_parent_key);
        proof {
            lemma_rotated_wf(orig, key, new_parent_key);
            lemma_subtree_depth(orig, key, new_parent_key);
            assert(orig.node_ok(key));
            assert(orig.node_ok(new_parent_key));
            assert(goal.nodes.dom() =~= self.nodes@.dom());
        }
        let mut node = self.take_node(key);
        let above = node.parent_key;
        node.parent_key = Some(new_parent_key);
        self.put_node(key, node);
        let mut new_parent = self.take_node(new_parent_key);
        let new_parent_above = new_parent.parent_key.unwrap();
        new_parent.parent_key = above;
        proof {
            if orig.children(new_parent_key).contains(key) {
                let i = choose|i: int|
                    0 <= i < orig.children(new_parent_key).len() && orig.children(
                        new_parent_key,
                    )[i] == key;
                assert(orig.is_child(orig.children(new_parent_key)[i], new_parent_key));
            }
        }
        set_insert(&mut new_parent.child_keys, key);
        self.put_node(new_parent_key, new_parent);
        match above {
            Some(above_key) => {
                proof {
                    assert(orig.node_ok(above_key));
                    lemma_swap_out(orig.children(above_key), key);
                    if orig.children(above_key).contains(new_parent_key) {
                        let i = choose|i: int|
                            0 <= i < orig.children(above_key).len() && orig.children(
                                above_key,
                            )[i] == new_parent_key;
                        assert(orig.is_child(orig.children(above_key)[i], above_key));
                    }
                }
                let mut above_node = self.take_node(above_key);
                set_swap_remove(&mut above_node.child_keys, key);
                set_insert(&mut above_node.child_keys, new_parent_key);
                self.put_node(above_key, above_node);
            },
            None => {
                self.root_key = Some(new_parent_key);
            },
        }
        let mut former = self.take_node(new_parent_above);
        set_swap_remove(&mut former.child_keys, new_parent_key);
        self.put_node(new_parent_above, former);
        proof {
            assert(self.nodes@.dom() =~= old(self).nodes@.dom());
            assert(self@.nodes.dom() =~= goal.nodes.dom());
            assert forall|d: u64| #[trigger] goal.nodes.contains_key(d) implies {
                &&& self@.nodes[d].value == goal.nodes[d].value
                &&& self@.nodes[d].parent == goal.nodes[d].parent
                &&& self@.nodes[d].children == goal.nodes[d].children
                &&& !goal.under(seq![new_parent_key], d) ==> self@.nodes[d].depth
                    == goal.nodes[d].depth
            } by {
                if orig.in_subtree(key, d) {
                    lemma_rotated_subtree(orig, key, new_parent_key, d);
                    assert(goal.in_subtree(seq![new_parent_key][0], d));
                }
                if orig.in_subtree(new_parent_key, d) {
                    lemma_subtree_trans(orig, key, new_parent_key, d);
                }
            }
        }
        self.restamp(new_parent_key, size_hint, Ghost(goal));
    }

    /// Rebases `key` onto `new_parent_key`, once their relationship is known.
    fn rebase_as(
        &mut self,
        relationship: Relationship<u64>,
        key: u64,
        new_parent_key: u64,
        size_hint: Option<usize>,
    ) -> (done: bool)
        requires
            old(self).wf(),
            Some(relationship) == old(self)@.relationship(key, new_parent_key),
        ensures
            final(self).wf(),
            final(self).barred() == old(self).barred(),
            done == old(self)@.can_rebase(key, new_parent_key),
            final(self)@ == old(self)@.rebased(key, new_parent_key),
    {
        match relationship {
            Relationship::Same => false,
            Relationship::Ancestral { ancestor_key, descendent_key } => {
                if new_parent_key == ancestor_key {
                    proof {
                        if self@.in_subtree(key, new_parent_key) {
                            lemma_subtree_depth(self@, key, new_parent_key);
                            lemma_subtree_depth(self@, new_parent_key, key);
                        }
                    }
                    self.rebase_generic(key, new_parent_key, size_hint)
                } else {
                    self.rebase_onto_descendent(key, new_parent_key, size_hint);
                    true
                }
            },
            Relationship::Siblings { common_ancestor_key } => self.rebase_generic(
                key,
                new_parent_key,
                size_hint,
            ),
        }
    }

    /// Makes the node under `key`, with its subtree, the last child of
    /// `new_parent_key`. If `new_parent_key` is a descendant of `key`, it
    /// first takes the place that `key` had. Returns whether the tree has
    /// changed: it has not if the tree lacks one of the two, if they are the
    /// same, or if `new_parent_key` is the parent of `key` already.
    /// `size_hint` is a guess at the size of the subtree: it sizes a buffer
    /// and changes nothing else.
    pub fn rebase(&mut self, key: u64, new_parent_key: u64, size_hint: Option<usize>) -> (done:
        bool)
        requires
            old(self).wf(),
        ensures
            final(self).wf(),
            final(self).barred() == old(self).barred(),
            done == old(self)@.can_rebase(key, new_parent_key),
            done == (final(self)@ != old(self)@),
            final(self)@ == old(self)@.rebased(key, new_parent_key),
    {
        proof {
            law_rebase(self@, key, new_parent_key);
        }
        match self.get_relationship(key, new_parent_key) {
            None => false,
            Some(relationship) => self.rebase_as(relationship, key, new_parent_key, size_hint),
        }
    }

    /// Lets `get_reordered_keys` choose the children of `key`: it is shown the
    /// children as they are, and what it returns is handed to
    /// `reorder_children_with`. It is not called if the tree lacks `key`.
    pub fn reorder_children<F>(&mut self, key: u64, get_reordered_keys: F) -> (done: bool) where
        F: FnOnce(&IndexSet<u64, RandomState>) -> IndexSet<u64, RandomState>,

        requires
            old(self).wf(),
            old(self)@.contains(key) ==> forall|current: &IndexSet<u64, RandomState>|
                set_items(*current) == old(self)@.children(key)
                    ==> #[trigger] get_reordered_keys.requires((current,)),
        ensures
            final(self).wf(),
            final(self).barred() == old(self).barred(),
            !old(self)@.contains(key) ==> !done && final(self)@ == old(self)@,
            old(self)@.contains(key) ==> exists|
                current: &IndexSet<u64, RandomState>,
                reordered: IndexSet<u64, RandomState>,
            |
                {
                    &&& set_items(*current) == old(self)@.children(key)
                    &&& #[trigger] get_reordered_keys.ensures((current,), reordered)
                    &&& done == old(self)@.can_reorder(key, set_items(reordered))
                    &&& final(self)@ == if done {
                        old(self)@.with_children(key, set_items(reordered))
                    } else {
                        old(self)@
                    }
                },
    {
        let reordered = match self.nodes.get(&key) {
            None => {
                return false;
            },
            Some(node) => get_reordered_keys(&node.child_keys),
        };
        self.reorder_children_with(key, reordered)
    }

    /// Puts `new_value` in the place of the value of the node under `key`,
    /// and returns the value that was there; `None` if the tree lacks `key`.
    pub fn set(&mut self, key: u64, new_value: V) -> (former: Option<V>)
        requires
            old(self).wf(),
        ensures
            final(self).wf(),
            final(self).barred() == old(self).barred(),
            match former {
                None => !old(self)@.contains(key) && final(self)@ == old(self)@,
                Some(v) => old(self)@.contains(key) && v == old(self)@.nodes[key].value && final(self)@ == old(self)@.with_value(key, new_value),
            },
    {
        let ghost orig = self@;
        let ghost keys = self.nodes@.dom();
        if self.nodes.contains_key(&key) {
            let mut node = self.take_node(key);
            let mut value = new_value;
            std::mem::swap(&mut node.value, &mut value);
            self.put_node(key, node);
            proof {
                assert(self.nodes@.dom() =~= keys);
                assert(self@.nodes =~= orig.with_value(key, new_value).nodes);
                lemma_with_value_wf(orig, key, new_value);
            }
            Some(value)
        } else {
            None
        }
    }

    /// The handle of the root with the root itself; `None` if the tree is
    /// empty.
    pub fn root_key_value(&self) -> (root: Option<(u64, Node<'_, V>)>)
        requires
            self.wf(),
        ensures
            match root {
                None => self@.root.is_none(),
                Some((key, node)) => self@.root == Some(key) && node@ == self@.nodes[key],
            },
    {
        match self.root_key {
            None => None,
            Some(root_key) => {
                let node = self.get(root_key).unwrap();
                Some((root_key, node))
            },
        }
    }

    /// Every node with its handle, each once, in no particular order.
    pub fn iter(&self) -> (pairs: Vec<(u64, Node<'_, V>)>)
        requires
            self.wf(),
        ensures
            pairs@.len() == self@.len(),
            forall|i: int|
                0 <= i < pairs@.len() ==> self@.contains((#[trigger] pairs@[i]).0) && pairs@[i].1@
                    == self@.nodes[pairs@[i].0],
            forall|i: int, j: int|
                0 <= i < j < pairs@.len() ==> (#[trigger] pairs@[i]).0 != (#[trigger] pairs@[j]).0,
            forall|k: u64|
                self@.contains(k) ==> exists|i: int|
                    0 <= i < pairs@.len() && (#[trigger] pairs@[i]).0 == k,
    {
        let mut pairs: Vec<(u64, Node<'_, V>)> = Vec::with_capacity(clamp_hint(self.nodes.len()));
        let ghost all = spec_hash_map_iter(&self.nodes).remaining();
        proof {
            assert(self@.nodes.dom() =~= self.nodes@.dom());
        }
        for entry in it: self.nodes.iter()
            invariant
                it.seq() == all,
                all == spec_hash_map_iter(&self.nodes).remaining(),
                pairs@.len() == it.index(),
                forall|i: int|
                    0 <= i < pairs@.len() ==> (#[trigger] pairs@[i]).0 == *all[i].0 && pairs@[i].1@
                        == (*all[i].1).model(),
        {
            let (key, inner) = entry;
            pairs.push(
                (
                    *key,
                    Node {
                        parent_key: inner.parent_key,
                        child_keys: &inner.child_keys,
                        depth: inner.depth,
                        value: &inner.value,
                    },
                ),
            );
        }
        proof {
            let table = self.nodes@;
            let held = Seq::new(all.len(), |i: int| *all[i].0);
            assert forall|i: int| 0 <= i < pairs@.len() implies self@.contains(
                (#[trigger] pairs@[i]).0,
            ) && pairs@[i].1@ == self@.nodes[pairs@[i].0] by {
                assert(table.contains_key(*all[i].0));
            }
            assert(held.to_set() =~= table.dom()) by {
                assert forall|k: u64| table.dom().contains(k) implies held.to_set().contains(k) by {
                    assert(all.contains((&k, &table[k])));
                    let i = choose|i: int| 0 <= i < all.len() && all[i] == (&k, &table[k]);
                    assert(held[i] == k);
                }
                assert forall|k: u64| held.to_set().contains(k) implies table.dom().contains(k) by {
                    let i = choose|i: int| 0 <= i < held.len() && held[i] == k;
                    assert(table.contains_key(*all[i].0));
                }
            }
            held.lemma_no_dup_set_cardinality();
            assert forall|k: u64| self@.contains(k) implies exists|i: int|
                0 <= i < pairs@.len() && (#[trigger] pairs@[i]).0 == k by {
                assert(held.to_set().contains(k));
                let i = choose|i: int| 0 <= i < held.len() && held[i] == k;
                assert(pairs@[i].0 == k);
            }
            assert forall|i: int, j: int| 0 <= i < j < pairs@.len() implies (#[trigger] pairs@[i]).0
                != (#[trigger] pairs@[j]).0 by {
                assert(held[i] != held[j]);
            }
        }
        pairs
    }

    /// The handle of every node, each once, in no particular order.
    pub fn keys(&self) -> (keys: Vec<u64>)
        requires
            self.wf(),
        ensures
            keys@.no_duplicates(),
            keys@.to_set() == self@.nodes.dom(),
    {
        let pairs = self.iter();
        let mut keys: Vec<u64> = Vec::with_capacity(clamp_hint(pairs.len()));
        let mut i: usize = 0;
        while i < pairs.len()
            invariant
                i <= pairs.len(),
                keys@.len() == i,
                forall|j: int| 0 <= j < i ==> #[trigger] keys@[j] == pairs@[j].0,
            decreases pairs.len() - i,
        {
            keys.push(pairs[i].0);
            i += 1;
        }
        proof {
            assert forall|k: u64| self@.nodes.dom().contains(k) implies keys@.to_set().contains(
                k,
            ) by {
                let j = choose|j: int| 0 <= j < pairs@.len() && (#[trigger] pairs@[j]).0 == k;
                assert(keys@[j] == k);
            }
            assert forall|k: u64| keys@.to_set().contains(k) implies self@.nodes.dom().contains(
                k,
            ) by {
                let j = choose|j: int| 0 <= j < keys@.len() && keys@[j] == k;
                assert(self@.contains(pairs@[j].0));
            }
            assert(keys@.to_set() =~= self@.nodes.dom());
        }
        keys
    }

    /// Every node, each once, in no particular order.
    pub fn nodes(&self) -> (nodes: Vec<Node<'_, V>>)
        requires
            self.wf(),
        ensures
            exists|keys: Seq<u64>|
                {
                    &&& keys.len() == nodes@.len()
                    &&& keys.no_duplicates()
                    &&& keys.to_set() == self@.nodes.dom()
                    &&& forall|i: int|
                        0 <= i < keys.len() ==> (#[trigger] nodes@[i])@ == self@.nodes[keys[i]]
                },
    {
        let pairs = self.iter();
        let mut nodes: Vec<Node<'_, V>> = Vec::with_capacity(clamp_hint(pairs.len()));
        let ghost keys = Seq::new(pairs@.len(), |i: int| pairs@[i].0);
        for pair in it: pairs.into_iter()
            invariant
                it.seq() == pairs@,
                nodes@.len() == it.index(),
                forall|j: int| 0 <= j < nodes@.len() ==> (#[trigger] nodes@[j]) == pairs@[j].1,
        {
            nodes.push(pair.1);
        }
        proof {
            assert forall|k: u64| self@.nodes.dom().contains(k) implies keys.to_set().contains(
                k,
            ) by {
                let j = choose|j: int| 0 <= j < pairs@.len() && (#[trigger] pairs@[j]).0 == k;
                assert(keys[j] == k);
            }
            assert forall|k: u64| keys.to_set().contains(k) implies self@.nodes.dom().contains(
                k,
            ) by {
                let j = choose|j: int| 0 <= j < keys.len() && keys[j] == k;
                assert(self@.contains(pairs@[j].0));
            }
            assert(keys.to_set() =~= self@.nodes.dom());
            assert(keys.no_duplicates());
        }
        nodes
    }

    /// Every node with its handle, each once, in no particular order, with
    /// the values open to change.
    #[verifier::loop_isolation(false)]
    pub fn iter_mut(&mut self) -> (pairs: Vec<(u64, NodeMut<'_, V>)>)
        requires
            old(self).wf(),
        ensures
            final(self).wf(),
            final(self).barred() == old(self).barred(),
            final(self)@.root == old(self)@.root,
            final(self)@.nodes.dom() == old(self)@.nodes.dom(),
            pairs@.len() == old(self)@.len(),
            forall|i: int|
                0 <= i < pairs@.len() ==> {
                    let k = (#[trigger] pairs@[i]).0;
                    &&& old(self)@.contains(k)
                    &&& pairs@[i].1.parent_key == old(self)@.parent(k)
                    &&& set_items(*pairs@[i].1.child_keys) == old(self)@.children(k)
                    &&& pairs@[i].1.depth == old(self)@.depth(k)
                    &&& *pairs@[i].1.value == old(self)@.nodes[k].value
                    &&& final(self)@.nodes[k] == (NodeView {
                        value: *final(pairs@[i].1.value),
                        ..old(self)@.nodes[k]
                    })
                },
            forall|i: int, j: int|
                0 <= i < j < pairs@.len() ==> (#[trigger] pairs@[i]).0 != (#[trigger] pairs@[j]).0,
            forall|k: u64| #[trigger]
                old(self)@.contains(k) ==> exists|i: int|
                    0 <= i < pairs@.len() && (#[trigger] pairs@[i]).0 == k,
    {
        let ghost root = self.root_key;
        let ghost table = self.nodes@;
        proof {
            assert(tree_of(root, table).nodes.dom() =~= table.dom());
            assert forall|after: Map<u64, InnerNode<V>>|
                same_links(table, after) implies (#[trigger] tree_of(root, after)).wf() && tree_of(
                root,
                after,
            ).nodes.dom() == tree_of(root, table).nodes.dom() by {
                lemma_values_changed(root, table, after);
            }
        }
        let slots = table_iter_mut(&mut self.nodes);
        let mut pairs: Vec<(u64, NodeMut<'_, V>)> = Vec::new();
        let ghost all = slots@;
        for slot in it: slots.into_iter()
            invariant
                it.seq() == all,
                pairs@.len() == it.index(),
                forall|i: int|
                    0 <= i < pairs@.len() ==> {
                        &&& (#[trigger] pairs@[i]).0 == all[i].0
                        &&& pairs@[i].1.parent_key == all[i].1.parent_key
                        &&& pairs@[i].1.child_keys == all[i].1.child_keys
                        &&& pairs@[i].1.depth == all[i].1.depth
                        &&& *pairs@[i].1.value == all[i].1.value
                        &&& final(all[i].1).parent_key == all[i].1.parent_key
                        &&& final(all[i].1).child_keys == all[i].1.child_keys
                        &&& final(all[i].1).depth == all[i].1.depth
                        &&& final(all[i].1).value == *final(pairs@[i].1.value)
                    },
        {
            let (key, inner) = slot;
            pairs.push(
                (
                    key,
                    NodeMut {
                        parent_key: inner.parent_key,
                        child_keys: &inner.child_keys,
                        depth: inner.depth,
                        value: &mut inner.value,
                    },
                ),
            );
        }
        proof {
            assert forall|k: u64| #[trigger] table.contains_key(k) implies exists|i: int|
                0 <= i < pairs@.len() && (#[trigger] pairs@[i]).0 == k by {
                let i = choose|i: int| 0 <= i < all.len() && (#[trigger] all[i]).0 == k;
                assert(pairs@[i].0 == k);
            }
        }
        pairs
    }

    /// Every node, each once, in no particular order, with the values open to
    /// change.
    #[verifier::loop_isolation(false)]
    pub fn nodes_mut(&mut self) -> (nodes: Vec<NodeMut<'_, V>>)
        requires
            old(self).wf(),
        ensures
            final(self).wf(),
            final(self).barred() == old(self).barred(),
            final(self)@.root == old(self)@.root,
            final(self)@.nodes.dom() == old(self)@.nodes.dom(),
            nodes@.len() == old(self)@.len(),
            forall|i: int|
                0 <= i < nodes@.len() ==> exists|k: u64|
                    {
                        &&& old(self)@.contains(k)
                        &&& (#[trigger] nodes@[i]).parent_key == old(self)@.parent(k)
                        &&& set_items(*nodes@[i].child_keys) == old(self)@.children(k)
                        &&& nodes@[i].depth == old(self)@.depth(k)
                        &&& *nodes@[i].value == old(self)@.nodes[k].value
                        &&& #[trigger] final(self)@.nodes[k] == (NodeView {
                            value: *final(nodes@[i].value),
                            ..old(self)@.nodes[k]
                        })
                    },
    {
        let pairs = self.iter_mut();
        let ghost all = pairs@;
        let mut nodes: Vec<NodeMut<'_, V>> = Vec::new();
        for pair in it: pairs.into_iter()
            invariant
                it.seq() == all,
                nodes@.len() == it.index(),
                forall|j: int| 0 <= j < nodes@.len() ==> (#[trigger] nodes@[j]) == all[j].1,
        {
            nodes.push(pair.1);
        }
        nodes
    }

    /// The value of every node, each node once, in no particular order, open
    /// to change.
    #[verifier::loop_isolation(false)]
    pub fn values_mut(&mut self) -> (values: Vec<&mut V>)
        requires
            old(self).wf(),
        ensures
            final(self).wf(),
            final(self).barred() == old(self).barred(),
            final(self)@.root == old(self)@.root,
            final(self)@.nodes.dom() == old(self)@.nodes.dom(),
            values@.len() == old(self)@.len(),
            forall|i: int|
                0 <= i < values@.len() ==> exists|k: u64|
                    {
                        &&& old(self)@.contains(k)
                        &&& *(#[trigger] values@[i]) == old(self)@.nodes[k].value
                        &&& #[trigger] final(self)@.nodes[k] == (NodeView {
                            value: *final(values@[i]),
                            ..old(self)@.nodes[k]
                        })
                    },
    {
        let pairs = self.iter_mut();
        let ghost all = pairs@;
        let mut values: Vec<&mut V> = Vec::new();
        for pair in it: pairs.into_iter()
            invariant
                it.seq() == all,
                values@.len() == it.index(),
                forall|j: int|
                    0 <= j < values@.len() ==> *(#[trigger] values@[j]) == *all[j].1.value
                        && *final(values@[j]) == *final(all[j].1.value),
        {
            values.push(pair.1.value);
        }
        values
    }

    /// The value of every node, each node once, in no particular order.
    pub fn values(&self) -> (values: Vec<&V>)
        requires
            self.wf(),
        ensures
            exists|keys: Seq<u64>|
                {
                    &&& keys.len() == values@.len()
                    &&& keys.no_duplicates()
                    &&& keys.to_set() == self@.nodes.dom()
                    &&& forall|i: int|
                        0 <= i < keys.len() ==> *(#[trigger] values@[i]) == self@.nodes[keys[i]].value
                },
    {
        let nodes = self.nodes();
        let ghost keys = choose|keys: Seq<u64>|
            {
                &&& keys.len() == nodes@.len()
                &&& keys.no_duplicates()
                &&& keys.to_set() == self@.nodes.dom()
                &&& forall|i: int|
                    0 <= i < keys.len() ==> (#[trigger] nodes@[i])@ == self@.nodes[keys[i]]
            };
        let mut values: Vec<&V> = Vec::with_capacity(clamp_hint(nodes.len()));
        for node in it: nodes.into_iter()
            invariant
                it.seq() == nodes@,
                values@.len() == it.index(),
                forall|j: int| 0 <= j < values@.len() ==> *(#[trigger] values@[j]) == nodes@[j]@.value,
        {
            values.push(node.value);
        }
        proof {
            assert forall|i: int| 0 <= i < keys.len() implies *(#[trigger] values@[i])
                == self@.nodes[keys[i]].value by {
                assert(nodes@[i]@ == self@.nodes[keys[i]]);
            }
        }
        values
    }

    /// The node under `key`, with its value open to change; `None` if the
    /// tree lacks `key`.
    pub fn get_mut(&mut self, key: u64) -> (node: Option<NodeMut<'_, V>>)
        requires
            old(self).wf(),
        ensures
            final(self).wf(),
            final(self).barred() == old(self).barred(),
            match node {
                None => !old(self)@.contains(key) && final(self)@ == old(self)@,
                Some(n) => {
                    &&& old(self)@.contains(key)
                    &&& n.parent_key == old(self)@.parent(key)
                    &&& set_items(*n.child_keys) == old(self)@.children(key)
                    &&& n.depth == old(self)@.depth(key)
                    &&& *n.value == old(self)@.nodes[key].value
                    &&& final(self)@ == old(self)@.with_value(key, *final(n.value))
                },
            },
    {
        let ghost root = self.root_key;
        let ghost table = self.nodes@;
        match table_get_mut(&mut self.nodes, key) {
            None => None,
            Some(inner) => {
                let node = NodeMut {
                    parent_key: inner.parent_key,
                    child_keys: &inner.child_keys,
                    depth: inner.depth,
                    value: &mut inner.value,
                };
                proof {
                    lemma_value_changed(
                        root,
                        table,
                        key,
                        InnerNode {
                            parent_key: table[key].parent_key,
                            child_keys: table[key].child_keys,
                            depth: table[key].depth,
                            value: *final(node.value),
                        },
                    );
                }
                Some(node)
            },
        }
    }

    /// The handle of the root with the root itself, its value open to change;
    /// `None` if the tree is empty.
    pub fn root_key_value_mut(&mut self) -> (root: Option<(u64, NodeMut<'_, V>)>)
        requires
            old(self).wf(),
        ensures
            final(self).wf(),
            final(self).barred() == old(self).barred(),
            match root {
                None => old(self)@.root.is_none() && final(self)@ == old(self)@,
                Some((key, n)) => {
                    &&& old(self)@.root == Some(key)
                    &&& n.parent_key.is_none()
                    &&& set_items(*n.child_keys) == old(self)@.children(key)
                    &&& n.depth == 0
                    &&& *n.value == old(self)@.nodes[key].value
                    &&& final(self)@ == old(self)@.with_value(key, *final(n.value))
                },
            },
    {
        proof {
            if let Some(r) = self@.root {
                assert(self@.node_ok(r));
            }
        }
        match self.root_key {
            None => None,
            Some(root_key) => {
                let node = self.get_mut(root_key).unwrap();
                Some((root_key, node))
            },
        }
    }

    /// Walks down from `to_visit` and lists every node that it meets.
    fn collect(&self, to_visit: Vec<u64>, size_hint: Option<usize>) -> (found: Vec<u64>)
        requires
            self.wf(),
            self@.apart(to_visit@),
            forall|i: int| 0 <= i < to_visit@.len() ==> self@.contains(#[trigger] to_visit@[i]),
        ensures
            found@.no_duplicates(),
            found@.to_set() == self@.under_set(to_visit@),
    {
        let ghost t = self@;
        let ghost start = to_visit@;
        let hint = match size_hint {
            Some(hint) => hint,
            None => self.nodes.len(),
        };
        let mut to_visit = to_visit;
        let mut found: Vec<u64> = Vec::with_capacity(clamp_hint(hint));
        proof {
            assert(found@.to_set() =~= Set::<u64>::empty());
            assert(t.under_set(start) =~= found@.to_set().union(t.under_set(to_visit@)));
        }
        while to_visit.len() > 0
            invariant
                self.wf(),
                t == self@,
                t.apart(to_visit@),
                forall|i: int| 0 <= i < to_visit@.len() ==> t.contains(#[trigger] to_visit@[i]),
                found@.no_duplicates(),
                found@.to_set().disjoint(t.under_set(to_visit@)),
                t.under_set(start) == found@.to_set().union(t.under_set(to_visit@)),
            decreases t.under_set(to_visit@).len(),
        {
            let ghost tops = to_visit@;
            let ghost listed = found@;
            let key = to_visit.pop().unwrap();
            proof {
                lemma_open_top(t, tops);
                assert(t.in_subtree(tops[tops.len() - 1], key));
                assert(t.under(tops, key));
                assert(t.under_set(tops).contains(key));
            }
            found.push(key);
            let mut kids = set_to_vec(&self.nodes.get(&key).unwrap().child_keys);
            to_visit.append(&mut kids);
            proof {
                let next = tops.drop_last() + t.children(key);
                assert(to_visit@ =~= next);
                assert(t.under_set(next) =~= t.under_set(tops).remove(key));
                assert(found@.to_set() =~= listed.to_set().insert(key)) by {
                    assert forall|x: u64| found@.to_set().contains(x) <==> listed.to_set().insert(
                        key,
                    ).contains(x) by {
                        if found@.contains(x) {
                            let i = choose|i: int| 0 <= i < found@.len() && found@[i] == x;
                            if i < listed.len() {
                                assert(listed[i] == x);
                            }
                        }
                        if listed.contains(x) {
                            let i = choose|i: int| 0 <= i < listed.len() && listed[i] == x;
                            assert(found@[i] == x);
                        }
                        if x == key {
                            assert(found@[listed.len() as int] == x);
                        }
                    }
                }
                assert forall|i: int, j: int|
                    0 <= i < j < found@.len() implies found@[i] != found@[j] by {
                    if j == listed.len() {
                        assert(listed.to_set().contains(listed[i]));
                    }
                }
                assert(t.under_set(start) =~= found@.to_set().union(t.under_set(next)));
                assert(t.under_set(tops).subset_of(t.nodes.dom())) by {
                    assert forall|d: u64| t.under_set(tops).contains(d) implies t.nodes.dom().contains(
                        d,
                    ) by {
                        let i = choose|i: int|
                            0 <= i < tops.len() && t.in_subtree(#[trigger] tops[i], d);
                    }
                }
                lemma_len_subset(t.under_set(tops), t.nodes.dom());
            }
        }
        proof {
            assert(t.under_set(to_visit@) =~= Set::<u64>::empty());
            assert(found@.to_set() =~= t.under_set(start));
        }
        found
    }

    /// The handles of the descendants of `key`, each once; `None` if the tree
    /// lacks `key`. `size_hint` is a guess at their number: it sizes a buffer
    /// and changes nothing else.
    pub fn descendent_keys(&self, key: u64, size_hint: Option<usize>) -> (found: Option<Vec<u64>>)
        requires
            self.wf(),
        ensures
            match found {
                None => !self@.contains(key),
                Some(keys) => self@.contains(key) && keys@.no_duplicates() && keys@.to_set()
                    == self@.descendants(key),
            },
    {
        match self.nodes.get(&key) {
            None => None,
            Some(node) => {
                let to_visit = set_to_vec(&node.child_keys);
                proof {
                    lemma_children_cover(self@, key);
                }
                Some(self.collect(to_visit, size_hint))
            },
        }
    }

    /// The handles of `key` and its descendants, each once; `None` if the
    /// tree lacks `key`. `size_hint` is a guess at their number: it sizes a
    /// buffer and changes nothing else.
    pub fn descendent_keys_inclusive(&self, key: u64, size_hint: Option<usize>) -> (found: Option<
        Vec<u64>,
    >)
        requires
            self.wf(),
        ensures
            match found {
                None => !self@.contains(key),
                Some(keys) => self@.contains(key) && keys@.no_duplicates() && keys@.to_set()
                    == self@.subtree(key),
            },
    {
        if self.nodes.contains_key(&key) {
            let mut to_visit: Vec<u64> = Vec::new();
            to_visit.push(key);
            proof {
                assert(to_visit@ =~= seq![key]);
                assert forall|d: u64| self@.under(to_visit@, d) <==> self@.in_subtree(key, d) by {
                    if self@.in_subtree(key, d) {
                        assert(self@.in_subtree(to_visit@[0], d));
                    }
                }
                assert(self@.under_set(to_visit@) =~= self@.subtree(key));
            }
            Some(self.collect(to_visit, size_hint))
        } else {
            None
        }
    }
}

impl<V: Clone> Clone for Tree<V> {
    /// A tree of the same shape under the same handles, with a clone of each
    /// value.
    fn clone(&self) -> (copy: Self)
        ensures
            self.wf() ==> copy.wf(),
            copy.barred() == self.barred(),
            self.wf() ==> copy@.root == self@.root && copy@.nodes.dom() == self@.nodes.dom(),
            self.wf() ==> forall|k: u64| #[trigger]
                self@.contains(k) ==> copy@.parent(k) == self@.parent(k) && copy@.children(k)
                    == self@.children(k) && copy@.depth(k) == self@.depth(k),
    {
        let copy = Tree {
            root_key: self.root_key,
            handles: self.handles.clone(),
            nodes: self.nodes.clone(),
        };
        proof {
            if self.wf() {
                assert(copy@.nodes =~= self@.nodes);
            }
        }
        copy
    }
}

impl<V> Default for Tree<V> {
    /// An empty tree.
    fn default() -> (tree: Self)
        ensures
            tree.wf(),
            tree@ == TreeView::<V>::empty(),
    {
        Tree::with_capacity(0)
    }
}

} // verus!
