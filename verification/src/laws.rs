//! What holds of every tree, and of every operation on one.

use vstd::prelude::*;
use vstd::set_lib::lemma_len_subset;
use crate::lemmas::{
    lemma_dropped, lemma_moved_wf, lemma_nearest_common, lemma_nearest_is_first, lemma_push_new,
    lemma_remove_as_reorder, lemma_rotated_wf, lemma_subtree_depth, lemma_swap_out,
    lemma_with_child_wf, lemma_with_children_wf, lemma_without,
};
use crate::model::{Relationship, TreeView};
use crate::ordered_set::{minus, swap_out};
use vstd::set_lib::lemma_set_difference_len;

verus! {

/// `d` can be reached from the root by going from a node to one of its
/// children, any number of times.
pub open spec fn reachable<V>(t: TreeView<V>, d: u64) -> bool
    decreases t.nodes[d].depth,
{
    t.contains(d) && (t.root == Some(d) || match t.nodes[d].parent {
        Some(p) => t.contains(p) && t.nodes[p].depth < t.nodes[d].depth
            && t.nodes[p].children.contains(d) && reachable(t, p),
        None => false,
    })
}

proof fn lemma_reachable<V>(t: TreeView<V>, d: u64)
    requires
        t.wf(),
        t.contains(d),
    ensures
        reachable(t, d),
    decreases t.nodes[d].depth,
{
    assert(t.node_ok(d));
    match t.nodes[d].parent {
        Some(p) => {
            lemma_reachable(t, p);
        },
        None => {},
    }
}

/// The nodes of a tree are those that can be reached from its root through
/// the child orders, so the length of the tree counts them.
pub proof fn law_len_counts_reachable<V>(t: TreeView<V>)
    requires
        t.wf(),
    ensures
        Set::new(|d: u64| reachable(t, d)) == t.nodes.dom(),
        t.len() == Set::new(|d: u64| reachable(t, d)).len(),
{
    assert forall|d: u64| reachable(t, d) <==> t.nodes.dom().contains(d) by {
        if t.contains(d) {
            lemma_reachable(t, d);
        }
    }
    assert(Set::new(|d: u64| reachable(t, d)) =~= t.nodes.dom());
}

/// The root lies at depth 0, and every other node one level below its parent.
pub proof fn law_depth<V>(t: TreeView<V>, k: u64)
    requires
        t.wf(),
        t.contains(k),
    ensures
        match t.parent(k) {
            None => t.root == Some(k) && t.depth(k) == 0,
            Some(p) => t.root != Some(k) && t.contains(p) && t.depth(k) == t.depth(p) + 1,
        },
{
    assert(t.node_ok(k));
    if let Some(r) = t.root {
        assert(t.node_ok(r));
    }
}

/// A tree that has just got a root holds that node and no other.
pub proof fn law_new_root_is_alone<V>(r: u64, value: V)
    ensures
        TreeView::single(r, value).wf(),
        TreeView::single(r, value).len() == 1,
        forall|h: u64| TreeView::single(r, value).contains(h) <==> h == r,
{
    let t = TreeView::single(r, value);
    assert(t.nodes.dom() =~= set![r]);
    assert(t.node_ok(r));
}

/// A new node is the last child of the parent it was put under; the tree has
/// one node more, and no other child order has changed.
pub proof fn law_insert_appends<V>(t: TreeView<V>, p: u64, c: u64, value: V)
    requires
        t.wf(),
        t.contains(p),
        !t.contains(c),
    ensures
        t.with_child(p, c, value).wf(),
        t.with_child(p, c, value).parent(c) == Some(p),
        t.with_child(p, c, value).children(p) == t.children(p).push(c),
        t.with_child(p, c, value).depth(c) == t.depth(p) + 1,
        t.with_child(p, c, value).len() == t.len() + 1,
        forall|k: u64|
            t.contains(k) && k != p ==> #[trigger] t.with_child(p, c, value).nodes[k]
                == t.nodes[k],
{
    lemma_with_child_wf(t, p, c, value);
    assert(t.with_child(p, c, value).nodes.dom() =~= t.nodes.dom().insert(c));
}

/// To remove the root is to empty the tree. To remove another node is to take
/// it and its descendants out of the tree, and the node out of the child
/// order of its parent; the length goes down by one and the number of its
/// descendants. To remove what the tree does not hold changes nothing.
pub proof fn law_remove<V>(t: TreeView<V>, k: u64)
    requires
        t.wf(),
    ensures
        t.remove_subtree(k).wf(),
        !t.contains(k) ==> t.remove_subtree(k) == t,
        t.contains(k) && t.root == Some(k) ==> t.remove_subtree(k).len() == 0,
        t.contains(k) && t.root != Some(k) ==> {
            &&& t.parent(k).is_some()
            &&& t.remove_subtree(k).len() == t.len() - 1 - t.descendants(k).len()
            &&& !t.remove_subtree(k).children(t.parent(k).unwrap()).contains(k)
            &&& forall|d: u64| #[trigger]
                t.remove_subtree(k).contains(d) <==> t.contains(d) && !t.in_subtree(k, d)
        },
{
    let u = t.remove_subtree(k);
    if t.contains(k) {
        if t.root == Some(k) {
            assert(u.nodes.dom() =~= Set::<u64>::empty());
        } else {
            lemma_remove_as_reorder(t, k);
            let p = t.parent(k).unwrap();
            lemma_without(t.children(p), k);
            assert(t.in_subtree(k, k));
            if t.in_subtree(k, p) {
                lemma_subtree_depth(t, k, p);
                assert(t.node_ok(k));
            }
            assert(t.subtree(k).subset_of(t.nodes.dom()));
            lemma_len_subset(t.subtree(k), t.nodes.dom());
            assert(u.nodes.dom() =~= t.nodes.dom().difference(t.subtree(k)));
            lemma_set_difference_len(t.nodes.dom(), t.subtree(k));
            assert(t.nodes.dom().intersect(t.subtree(k)) =~= t.subtree(k));
        }
    }
}

/// A rebase is done exactly where it changes the tree. After one that was
/// done, the node has the parent it was rebased onto and is its last child,
/// its former parent no longer lists it as a child, and the tree has as many
/// nodes as before. One that was not done leaves the tree as it was.
pub proof fn law_rebase<V>(t: TreeView<V>, k: u64, np: u64)
    requires
        t.wf(),
    ensures
        t.rebased(k, np).wf(),
        t.rebased(k, np).len() == t.len(),
        t.can_rebase(k, np) <==> t.rebased(k, np) != t,
        t.can_rebase(k, np) ==> {
            &&& t.rebased(k, np).parent(k) == Some(np)
            &&& t.rebased(k, np).children(np).last() == k
            &&& forall|op: u64|
                t.parent(k) == Some(op) ==> !(#[trigger] t.rebased(k, np).children(op)).contains(k)
        },
{
    let u = t.rebased(k, np);
    if t.can_rebase(k, np) {
        assert(t.node_ok(k));
        if t.in_subtree(k, np) {
            lemma_rotated_wf(t, k, np);
            if let Some(op) = t.parent(k) {
                assert(t.node_ok(op));
                lemma_swap_out(t.children(op), k);
                lemma_push_new(swap_out(t.children(op), k), np);
            }
        } else {
            lemma_moved_wf(t, k, np);
            let op = t.parent(k).unwrap();
            lemma_without(t.children(op), k);
        }
        assert(u.nodes.dom() =~= t.nodes.dom());
        assert(u.nodes[k].parent != t.nodes[k].parent);
    }
}

/// After the children of a node have been reordered, they are the given
/// sequence; each child that the sequence leaves out is gone with all its
/// subtree, and every other node is still there.
pub proof fn law_reorder<V>(t: TreeView<V>, k: u64, order: Seq<u64>)
    requires
        t.wf(),
        t.can_reorder(k, order),
    ensures
        t.with_children(k, order).wf(),
        t.with_children(k, order).children(k) == order,
        forall|c: u64, d: u64|
            t.children(k).contains(c) && !order.contains(c) && #[trigger] t.in_subtree(c, d)
                ==> !t.with_children(k, order).contains(d),
        forall|d: u64|
            t.contains(d) && !t.under(minus(t.children(k), order), d) ==> #[trigger] t.with_children(
                k,
                order,
            ).contains(d),
{
    let u = t.with_children(k, order);
    let dropped = minus(t.children(k), order);
    lemma_with_children_wf(t, k, order);
    lemma_dropped(t, k, order);
    assert forall|c: u64, d: u64|
        t.children(k).contains(c) && !order.contains(c) && #[trigger] t.in_subtree(
            c,
            d,
        ) implies !u.contains(d) by {
        assert(dropped.contains(c));
        let i = choose|i: int| 0 <= i < dropped.len() && dropped[i] == c;
        assert(t.in_subtree(dropped[i], d));
        assert(t.under(dropped, d));
    }
}

/// The relationship of two nodes does not depend on the order in which they
/// are given: the same node is the ancestor, and the same node the common
/// ancestor.
pub proof fn law_relationship_symmetric<V>(t: TreeView<V>, a: u64, b: u64)
    requires
        t.wf(),
    ensures
        t.relationship(a, b) == t.relationship(b, a),
{
    if t.contains(a) && t.contains(b) && a != b {
        if t.in_subtree(a, b) && t.in_subtree(b, a) {
            lemma_subtree_depth(t, a, b);
            lemma_subtree_depth(t, b, a);
        }
        if !t.in_subtree(a, b) && !t.in_subtree(b, a) {
            lemma_nearest_common(t, a, b);
            lemma_nearest_common(t, b, a);
            let c = t.nearest_common(a, b);
            let e = t.nearest_common(b, a);
            assert(t.in_subtree(c, e));
            assert(t.in_subtree(e, c));
            lemma_subtree_depth(t, c, e);
            lemma_subtree_depth(t, e, c);
        }
    }
}

/// What a relationship says: an ancestor has the descendant in its subtree,
/// and a common ancestor has both nodes in its subtree and lies below every
/// other node that has both.
pub proof fn law_relationship_meaning<V>(t: TreeView<V>, a: u64, b: u64)
    requires
        t.wf(),
        t.contains(a),
        t.contains(b),
    ensures
        match t.relationship(a, b) {
            Some(Relationship::Same) => a == b,
            Some(Relationship::Ancestral { ancestor_key, descendent_key }) => {
                &&& t.is_ancestor(ancestor_key, descendent_key)
                &&& (ancestor_key == a && descendent_key == b) || (ancestor_key == b
                    && descendent_key == a)
            },
            Some(Relationship::Siblings { common_ancestor_key }) => {
                &&& t.is_ancestor(common_ancestor_key, a)
                &&& t.is_ancestor(common_ancestor_key, b)
                &&& !t.in_subtree(a, b)
                &&& !t.in_subtree(b, a)
                &&& forall|c: u64|
                    t.in_subtree(c, a) && #[trigger] t.in_subtree(c, b) ==> t.in_subtree(
                        c,
                        common_ancestor_key,
                    )
            },
            None => false,
        },
{
    lemma_nearest_common(t, a, b);
    lemma_nearest_is_first(t, a, b);
}

} // verus!
