//! The mathematical model of a tree.
//!
//! A tree is a map from handles to node records and an optional root handle.
//! Every contract of the library is stated over this model.

use vstd::prelude::*;
use crate::ordered_set::{minus, swap_out, without};

verus! {

/// What the model knows of one node.
pub struct NodeView<V> {
    /// The value that the node carries.
    pub value: V,
    /// The handle of the parent; the root has none.
    pub parent: Option<u64>,
    /// The handles of the children, in their order.
    pub children: Seq<u64>,
    /// The number of ancestors.
    pub depth: nat,
}

/// The model of a tree.
pub struct TreeView<V> {
    /// The handle of the root; an empty tree has none.
    pub root: Option<u64>,
    /// The record of every node, under its handle.
    pub nodes: Map<u64, NodeView<V>>,
}

/// How two nodes of a tree stand to each other.
#[derive(Debug, Clone, Copy, PartialEq, Eq)]
pub enum Relationship<K> {
    /// The two are one node.
    Same,
    /// One of the two lies on the chain of parents of the other.
    Ancestral {
        /// The one that lies above.
        ancestor_key: K,
        /// The one that lies below.
        descendent_key: K,
    },
    /// Neither lies above the other.
    Siblings {
        /// The deepest node that lies above both.
        common_ancestor_key: K,
    },
}

impl<V> TreeView<V> {
    /// The tree without nodes.
    pub open spec fn empty() -> Self {
        TreeView { root: None, nodes: Map::empty() }
    }

    /// `k` is the handle of a node of the tree.
    pub open spec fn contains(self, k: u64) -> bool {
        self.nodes.contains_key(k)
    }

    /// The number of nodes.
    pub open spec fn len(self) -> nat {
        self.nodes.dom().len()
    }

    /// The parent of `k`.
    pub open spec fn parent(self, k: u64) -> Option<u64> {
        self.nodes[k].parent
    }

    /// The children of `k`, in their order.
    pub open spec fn children(self, k: u64) -> Seq<u64> {
        self.nodes[k].children
    }

    /// The depth of `k`.
    pub open spec fn depth(self, k: u64) -> nat {
        self.nodes[k].depth
    }

    /// `c` is a node whose parent is `p`.
    pub open spec fn is_child(self, c: u64, p: u64) -> bool {
        self.contains(c) && self.nodes[c].parent == Some(p)
    }

    /// The record of `k` agrees with the records around it: its children are
    /// distinct nodes that name it as their parent, its parent lists it as a
    /// child and lies one level above it, and only the root has no parent.
    pub open spec fn node_ok(self, k: u64) -> bool {
        let n = self.nodes[k];
        &&& n.children.no_duplicates()
        &&& forall|i: int| 0 <= i < n.children.len() ==> self.is_child(#[trigger] n.children[i], k)
        &&& match n.parent {
            None => self.root == Some(k) && n.depth == 0,
            Some(p) => self.contains(p) && self.nodes[p].children.contains(k) && n.depth
                == self.nodes[p].depth + 1,
        }
    }

    /// The invariant of a tree.
    pub open spec fn wf(self) -> bool {
        &&& self.nodes.dom().finite()
        &&& match self.root {
            None => self.nodes.dom() =~= Set::<u64>::empty(),
            Some(r) => self.contains(r) && self.nodes[r].parent.is_none(),
        }
        &&& forall|k: u64| #[trigger] self.nodes.contains_key(k) ==> self.node_ok(k)
    }

    /// `d` is `a`, or a descendant of `a`: the chain of parents that starts at
    /// `d` comes by `a`.
    pub open spec fn in_subtree(self, a: u64, d: u64) -> bool
        decreases self.nodes[d].depth,
    {
        self.contains(d) && (d == a || match self.nodes[d].parent {
            Some(p) => self.contains(p) && self.nodes[p].depth < self.nodes[d].depth
                && self.in_subtree(a, p),
            None => false,
        })
    }

    /// The nodes of the subtree of `a`: `a` and its descendants.
    pub open spec fn subtree(self, a: u64) -> Set<u64> {
        Set::new(|d: u64| self.in_subtree(a, d))
    }

    /// The descendants of `a`.
    pub open spec fn descendants(self, a: u64) -> Set<u64> {
        self.subtree(a).remove(a)
    }

    /// `a` is an ancestor of `d`.
    pub open spec fn is_ancestor(self, a: u64, d: u64) -> bool {
        a != d && self.in_subtree(a, d)
    }

    /// The deepest node whose subtree holds both `a` and `b`: the first node
    /// on the chain of parents from `b` whose subtree holds `a`.
    pub open spec fn nearest_common(self, a: u64, b: u64) -> u64
        decreases self.nodes[b].depth,
    {
        if self.in_subtree(b, a) {
            b
        } else {
            match self.nodes[b].parent {
                Some(p) => if self.contains(p) && self.nodes[p].depth < self.nodes[b].depth {
                    self.nearest_common(a, p)
                } else {
                    b
                },
                None => b,
            }
        }
    }

    /// How `a` and `b` stand to each other; `None` unless the tree has both.
    pub open spec fn relationship(self, a: u64, b: u64) -> Option<Relationship<u64>> {
        if !self.contains(a) || !self.contains(b) {
            None
        } else if a == b {
            Some(Relationship::Same)
        } else if self.in_subtree(b, a) {
            Some(Relationship::Ancestral { ancestor_key: b, descendent_key: a })
        } else if self.in_subtree(a, b) {
            Some(Relationship::Ancestral { ancestor_key: a, descendent_key: b })
        } else {
            Some(Relationship::Siblings { common_ancestor_key: self.nearest_common(a, b) })
        }
    }

    /// `d` lies in the subtree of one of the nodes of `tops`.
    pub open spec fn under(self, tops: Seq<u64>, d: u64) -> bool {
        exists|i: int| 0 <= i < tops.len() && self.in_subtree(#[trigger] tops[i], d)
    }

    /// The nodes of the subtrees of `tops`.
    pub open spec fn under_set(self, tops: Seq<u64>) -> Set<u64> {
        Set::new(|d: u64| self.under(tops, d))
    }

    /// None of `tops` lies in the subtree of another.
    pub open spec fn apart(self, tops: Seq<u64>) -> bool {
        forall|i: int, j: int|
            0 <= i < tops.len() && 0 <= j < tops.len() && i != j ==> !self.in_subtree(
                #[trigger] tops[i],
                #[trigger] tops[j],
            )
    }

    /// `order` can become the child order of `k`: it names children of `k`,
    /// each once.
    pub open spec fn can_reorder(self, k: u64, order: Seq<u64>) -> bool {
        &&& self.contains(k)
        &&& order.no_duplicates()
        &&& forall|i: int| 0 <= i < order.len() ==> self.children(k).contains(#[trigger] order[i])
    }

    /// The tree in which the children of `k` are `order`, and in which the
    /// children that `order` leaves out are gone, each with its subtree.
    pub open spec fn with_children(self, k: u64, order: Seq<u64>) -> Self {
        let dropped = minus(self.children(k), order);
        TreeView {
            root: self.root,
            nodes: self.nodes.remove_keys(self.under_set(dropped)).insert(
                k,
                NodeView { children: order, ..self.nodes[k] },
            ),
        }
    }

    /// The tree without `k` and its descendants. Nothing is left if `k` is the
    /// root; otherwise the parent of `k` loses it as a child.
    pub open spec fn remove_subtree(self, k: u64) -> Self {
        if !self.contains(k) {
            self
        } else if self.root == Some(k) {
            Self::empty()
        } else {
            let p = self.nodes[k].parent.unwrap();
            TreeView {
                root: self.root,
                nodes: self.nodes.remove_keys(self.subtree(k)).insert(
                    p,
                    NodeView { children: without(self.children(p), k), ..self.nodes[p] },
                ),
            }
        }
    }

    /// The tree in which `k`, with its subtree, has left its parent and is the
    /// last child of `np`. Meant for a `np` that lies outside the subtree of
    /// `k` and is not the parent of `k`. Every node of the subtree lies as
    /// much deeper as `k` itself does.
    pub open spec fn moved(self, k: u64, np: u64) -> Self {
        let op = self.nodes[k].parent.unwrap();
        let shift = self.depth(np) + 1 - self.depth(k);
        TreeView {
            root: self.root,
            nodes: Map::new(
                |d: u64| self.contains(d),
                |d: u64|
                    {
                        let n = self.nodes[d];
                        NodeView {
                            value: n.value,
                            parent: if d == k {
                                Some(np)
                            } else {
                                n.parent
                            },
                            children: if d == np {
                                n.children.push(k)
                            } else if d == op {
                                without(n.children, k)
                            } else {
                                n.children
                            },
                            depth: if self.in_subtree(k, d) {
                                (n.depth + shift) as nat
                            } else {
                                n.depth
                            },
                        }
                    },
            ),
        }
    }

    /// The tree in which `x` has become the last child of its own descendant
    /// `y`, and `y` stands where `x` stood: `y` has the parent that `x` had,
    /// or is the root if `x` was. The former parent of `y` loses `y`, and the
    /// former parent of `x` loses `x`, the last child moving into the gap; it
    /// gets `y` as its last child. The subtree of `y` rises to the depth of
    /// `x`, and what else lay under `x` sinks by one.
    pub open spec fn rotated(self, x: u64, y: u64) -> Self {
        let p = self.nodes[x].parent;
        let q = self.nodes[y].parent.unwrap();
        TreeView {
            root: if p.is_none() {
                Some(y)
            } else {
                self.root
            },
            nodes: Map::new(
                |d: u64| self.contains(d),
                |d: u64|
                    {
                        let n = self.nodes[d];
                        NodeView {
                            value: n.value,
                            parent: if d == x {
                                Some(y)
                            } else if d == y {
                                p
                            } else {
                                n.parent
                            },
                            children: if d == y {
                                n.children.push(x)
                            } else if p == Some(d) {
                                swap_out(n.children, x).push(y)
                            } else if d == q {
                                swap_out(n.children, y)
                            } else {
                                n.children
                            },
                            depth: if self.in_subtree(y, d) {
                                (n.depth - self.depth(y) + self.depth(x)) as nat
                            } else if self.in_subtree(x, d) {
                                n.depth + 1
                            } else {
                                n.depth
                            },
                        }
                    },
            ),
        }
    }

    /// Whether to rebase `k` onto `np` changes the tree: both are nodes of the
    /// tree, they differ, and `np` is not the parent that `k` has.
    pub open spec fn can_rebase(self, k: u64, np: u64) -> bool {
        self.contains(k) && self.contains(np) && k != np && self.nodes[k].parent != Some(np)
    }

    /// The tree after `k` has been rebased onto `np`.
    pub open spec fn rebased(self, k: u64, np: u64) -> Self {
        if !self.can_rebase(k, np) {
            self
        } else if self.in_subtree(k, np) {
            self.rotated(k, np)
        } else {
            self.moved(k, np)
        }
    }

    /// The two trees have the same nodes, with the same values, parents and
    /// children; they agree on the depth of every node outside the subtrees
    /// that `tops` have in `goal`.
    pub open spec fn matches_above(self, goal: Self, tops: Seq<u64>) -> bool {
        &&& self.root == goal.root
        &&& self.nodes.dom() == goal.nodes.dom()
        &&& forall|d: u64| #[trigger]
            goal.nodes.contains_key(d) ==> {
                &&& self.nodes[d].value == goal.nodes[d].value
                &&& self.nodes[d].parent == goal.nodes[d].parent
                &&& self.nodes[d].children == goal.nodes[d].children
                &&& !goal.under(tops, d) ==> self.nodes[d].depth == goal.nodes[d].depth
            }
    }

    /// The tree that holds `r` alone.
    pub open spec fn single(r: u64, value: V) -> Self {
        TreeView {
            root: Some(r),
            nodes: Map::empty().insert(
                r,
                NodeView { value, parent: None, children: Seq::empty(), depth: 0 },
            ),
        }
    }

    /// The tree with the new handle `c` as the last child of `p`.
    pub open spec fn with_child(self, p: u64, c: u64, value: V) -> Self {
        let above = self.nodes[p];
        TreeView {
            root: self.root,
            nodes: self.nodes.insert(
                p,
                NodeView { children: above.children.push(c), ..above },
            ).insert(
                c,
                NodeView {
                    value,
                    parent: Some(p),
                    children: Seq::empty(),
                    depth: above.depth + 1,
                },
            ),
        }
    }

    /// The tree with another value at `k`.
    pub open spec fn with_value(self, k: u64, value: V) -> Self {
        TreeView {
            root: self.root,
            nodes: self.nodes.insert(k, NodeView { value, ..self.nodes[k] }),
        }
    }
}

} // verus!
