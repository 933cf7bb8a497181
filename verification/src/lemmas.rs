//! Proofs about the model that the operations of the tree rest on.

use vstd::prelude::*;
use vstd::set_lib::*;
use crate::model::TreeView;
use crate::ordered_set::{minus, not_in, other_than, swap_out, without};

verus! {

/// The chain of parents from `k` up to the root, the root first.
pub open spec fn lineage<V>(t: TreeView<V>, k: u64) -> Seq<u64>
    decreases t.nodes[k].depth,
{
    match t.nodes[k].parent {
        Some(p) => if t.contains(p) && t.nodes[p].depth < t.nodes[k].depth {
            lineage(t, p).push(k)
        } else {
            seq![k]
        },
        None => seq![k],
    }
}

proof fn lemma_lineage<V>(t: TreeView<V>, k: u64)
    requires
        t.wf(),
        t.contains(k),
    ensures
        lineage(t, k).len() == t.depth(k) + 1,
        lineage(t, k).no_duplicates(),
        forall|i: int|
            0 <= i < lineage(t, k).len() ==> t.contains(#[trigger] lineage(t, k)[i]) && t.depth(
                lineage(t, k)[i],
            ) <= t.depth(k),
    decreases t.nodes[k].depth,
{
    assert(t.node_ok(k));
    match t.nodes[k].parent {
        Some(p) => {
            lemma_lineage(t, p);
            let up = lineage(t, p);
            assert(lineage(t, k) == up.push(k));
            assert forall|i: int, j: int|
                0 <= i < j < up.push(k).len() implies up.push(k)[i] != up.push(k)[j] by {
                if j == up.len() {
                    assert(t.depth(up[i]) <= t.depth(p));
                }
            }
        },
        None => {},
    }
}

/// A node lies less deep than the tree has nodes.
pub proof fn lemma_depth_below_len<V>(t: TreeView<V>, k: u64)
    requires
        t.wf(),
        t.contains(k),
    ensures
        t.depth(k) < t.len(),
{
    lemma_lineage(t, k);
    let line = lineage(t, k);
    line.unique_seq_to_set();
    assert(line.to_set().subset_of(t.nodes.dom())) by {
        assert forall|x: u64| line.to_set().contains(x) implies t.nodes.dom().contains(x) by {
            let i = choose|i: int| 0 <= i < line.len() && line[i] == x;
            assert(t.contains(line[i]));
        }
    }
    lemma_len_subset(line.to_set(), t.nodes.dom());
}

/// A tree that gets a new last child under one of its nodes is a tree.
pub proof fn lemma_with_child_wf<V>(t: TreeView<V>, p: u64, c: u64, value: V)
    requires
        t.wf(),
        t.contains(p),
        !t.contains(c),
    ensures
        t.with_child(p, c, value).wf(),
{
    let u = t.with_child(p, c, value);
    assert(t.node_ok(p));
    assert forall|k: u64| #[trigger] u.nodes.contains_key(k) implies u.node_ok(k) by {
        if k == c {
            assert(u.nodes[p].children.last() == c);
        } else {
            assert(t.node_ok(k));
            let n = u.nodes[k];
            assert forall|i: int| 0 <= i < n.children.len() implies u.is_child(
                #[trigger] n.children[i],
                k,
            ) by {
                if k == p && i == n.children.len() - 1 {
                } else {
                    assert(t.is_child(t.nodes[k].children[i], k));
                }
            }
            if k == p {
                assert forall|i: int, j: int|
                    0 <= i < j < n.children.len() implies n.children[i] != n.children[j] by {
                    if j == n.children.len() - 1 {
                        assert(t.is_child(t.nodes[p].children[i], p));
                    }
                }
            }
            match n.parent {
                Some(q) => {
                    let i = choose|i: int|
                        0 <= i < t.nodes[q].children.len() && t.nodes[q].children[i] == k;
                    assert(u.nodes[q].children[i] == k);
                },
                None => {},
            }
        }
    }
}

/// The root of a subtree lies no deeper than any node of it, and only the
/// root itself lies as deep.
pub proof fn lemma_subtree_depth<V>(t: TreeView<V>, a: u64, d: u64)
    requires
        t.wf(),
        t.in_subtree(a, d),
    ensures
        t.contains(a),
        t.contains(d),
        t.depth(a) <= t.depth(d),
        t.depth(a) == t.depth(d) ==> a == d,
    decreases t.nodes[d].depth,
{
    if d != a {
        lemma_subtree_depth(t, a, t.nodes[d].parent.unwrap());
    }
}

/// What lies in the subtree of a node lies in the subtree of its parent.
pub proof fn lemma_subtree_up<V>(t: TreeView<V>, a: u64, d: u64)
    requires
        t.wf(),
        t.in_subtree(a, d),
        t.parent(a).is_some(),
    ensures
        t.in_subtree(t.parent(a).unwrap(), d),
    decreases t.nodes[d].depth,
{
    let q = t.parent(a).unwrap();
    lemma_subtree_depth(t, a, d);
    assert(t.node_ok(a));
    assert(t.in_subtree(q, q));
    if d != a {
        lemma_subtree_up(t, a, t.nodes[d].parent.unwrap());
    }
}

/// Subtrees nest: what lies under `b` lies under whatever `b` lies under.
pub proof fn lemma_subtree_trans<V>(t: TreeView<V>, a: u64, b: u64, d: u64)
    requires
        t.wf(),
        t.in_subtree(a, b),
        t.in_subtree(b, d),
    ensures
        t.in_subtree(a, d),
    decreases t.nodes[d].depth,
{
    if d != b {
        lemma_subtree_trans(t, a, b, t.nodes[d].parent.unwrap());
    }
}

/// Every node lies in the subtree of the root.
pub proof fn lemma_root_above_all<V>(t: TreeView<V>, d: u64)
    requires
        t.wf(),
        t.contains(d),
    ensures
        t.root.is_some(),
        t.in_subtree(t.root.unwrap(), d),
    decreases t.nodes[d].depth,
{
    assert(t.node_ok(d));
    match t.nodes[d].parent {
        Some(p) => {
            lemma_root_above_all(t, p);
        },
        None => {},
    }
}

/// The nearest common node of `a` and `b` is `a` exactly when `b` lies in the
/// subtree of `a`.
pub proof fn lemma_nearest_is_first<V>(t: TreeView<V>, a: u64, b: u64)
    requires
        t.wf(),
        t.contains(a),
        t.contains(b),
    ensures
        t.nearest_common(a, b) == a <==> t.in_subtree(a, b),
    decreases t.nodes[b].depth,
{
    assert(t.node_ok(b));
    if t.in_subtree(b, a) {
        if t.in_subtree(a, b) {
            lemma_subtree_depth(t, a, b);
            lemma_subtree_depth(t, b, a);
        }
    } else {
        match t.nodes[b].parent {
            Some(p) => {
                lemma_nearest_is_first(t, a, p);
            },
            None => {
                lemma_root_above_all(t, a);
            },
        }
    }
}

/// What a filter keeps: the items that pass, each as often as before.
pub proof fn lemma_filter_keeps(s: Seq<u64>, pass: spec_fn(u64) -> bool)
    ensures
        forall|x: u64| #[trigger] s.filter(pass).contains(x) <==> s.contains(x) && pass(x),
        s.no_duplicates() ==> s.filter(pass).no_duplicates(),
    decreases s.len(),
{
    reveal(Seq::filter);
    if s.len() > 0 {
        let front = s.drop_last();
        let out = s.filter(pass);
        lemma_filter_keeps(front, pass);
        assert forall|x: u64| #[trigger] out.contains(x) <==> s.contains(x) && pass(x) by {
            if out.contains(x) {
                let i = choose|i: int| 0 <= i < out.len() && out[i] == x;
                if i < front.filter(pass).len() {
                    assert(front.filter(pass)[i] == x);
                    assert(front.filter(pass).contains(x));
                    let j = choose|j: int| 0 <= j < front.len() && front[j] == x;
                    assert(s[j] == x);
                } else {
                    assert(s[s.len() - 1] == x);
                }
            }
            if s.contains(x) && pass(x) {
                let j = choose|j: int| 0 <= j < s.len() && s[j] == x;
                if j < front.len() {
                    assert(front[j] == x);
                    assert(front.contains(x));
                    assert(front.filter(pass).contains(x));
                    let i = choose|i: int|
                        0 <= i < front.filter(pass).len() && front.filter(pass)[i] == x;
                    assert(out[i] == x);
                } else {
                    assert(out[out.len() - 1] == x);
                }
            }
        }
        if s.no_duplicates() {
            assert(front.no_duplicates());
            if pass(s.last()) {
                assert forall|i: int, j: int| 0 <= i < j < out.len() implies out[i] != out[j] by {
                    if j == out.len() - 1 {
                        assert(front.filter(pass)[i] == out[i]);
                        assert(front.filter(pass).contains(out[i]));
                        let m = choose|m: int| 0 <= m < front.len() && front[m] == out[i];
                        assert(s[m] != s[s.len() - 1]);
                    } else {
                        assert(front.filter(pass)[i] != front.filter(pass)[j]);
                    }
                }
            }
        }
    }
}

/// A child lies in the subtree of its parent, one level below it.
pub proof fn lemma_child_below<V>(t: TreeView<V>, k: u64, i: int)
    requires
        t.wf(),
        t.contains(k),
        0 <= i < t.children(k).len(),
    ensures
        t.is_child(t.children(k)[i], k),
        t.in_subtree(k, t.children(k)[i]),
        t.in_subtree(t.children(k)[i], t.children(k)[i]),
        t.depth(t.children(k)[i]) == t.depth(k) + 1,
{
    let c = t.children(k)[i];
    assert(t.node_ok(k));
    assert(t.is_child(c, k));
    assert(t.node_ok(c));
    assert(t.in_subtree(k, k));
}

/// A descendant of `k` lies in the subtree of a child of `k`.
pub proof fn lemma_child_split<V>(t: TreeView<V>, k: u64, d: u64)
    requires
        t.wf(),
        t.in_subtree(k, d),
        d != k,
    ensures
        exists|i: int| 0 <= i < t.children(k).len() && t.in_subtree(#[trigger] t.children(k)[i], d),
    decreases t.nodes[d].depth,
{
    let p = t.nodes[d].parent.unwrap();
    assert(t.node_ok(d));
    if p == k {
        let i = choose|i: int| 0 <= i < t.children(k).len() && t.children(k)[i] == d;
        assert(t.in_subtree(t.children(k)[i], d));
    } else {
        lemma_child_split(t, k, p);
        let i = choose|i: int|
            0 <= i < t.children(k).len() && t.in_subtree(#[trigger] t.children(k)[i], p);
        assert(t.in_subtree(t.children(k)[i], d));
    }
}

/// One step of a walk that takes subtrees apart: when the last of `tops`
/// gives way to its children, the subtrees of the new tops hold what those of
/// the old ones held, but for that node itself.
pub proof fn lemma_open_top<V>(t: TreeView<V>, tops: Seq<u64>)
    requires
        t.wf(),
        tops.len() > 0,
        t.apart(tops),
        forall|i: int| 0 <= i < tops.len() ==> t.contains(#[trigger] tops[i]),
    ensures
        ({
            let next = tops.drop_last() + t.children(tops.last());
            &&& t.apart(next)
            &&& forall|i: int| 0 <= i < next.len() ==> t.contains(#[trigger] next[i])
            &&& forall|d: u64| #[trigger]
                t.under(next, d) <==> t.under(tops, d) && d != tops.last()
        }),
{
    let k = tops.last();
    let rest = tops.drop_last();
    let kids = t.children(k);
    let next = rest + kids;
    let last = tops.len() - 1;
    assert(t.node_ok(k));
    assert forall|i: int| 0 <= i < next.len() implies t.contains(#[trigger] next[i]) by {
        if i >= rest.len() {
            lemma_child_below(t, k, i - rest.len());
        } else {
            assert(next[i] == tops[i]);
        }
    }
    assert forall|i: int, j: int|
        0 <= i < next.len() && 0 <= j < next.len() && i != j implies !t.in_subtree(
        #[trigger] next[i],
        #[trigger] next[j],
    ) by {
        if t.in_subtree(next[i], next[j]) {
            if i < rest.len() && j < rest.len() {
                assert(next[i] == tops[i] && next[j] == tops[j]);
            } else if i < rest.len() {
                assert(next[i] == tops[i]);
                lemma_child_below(t, k, j - rest.len());
                if next[i] == next[j] {
                    assert(t.in_subtree(tops[last], tops[i]));
                } else {
                    assert(t.in_subtree(tops[i], tops[last]));
                }
            } else if j < rest.len() {
                assert(next[j] == tops[j]);
                lemma_child_below(t, k, i - rest.len());
                lemma_subtree_trans(t, k, next[i], next[j]);
                assert(t.in_subtree(tops[last], tops[j]));
            } else {
                lemma_child_below(t, k, i - rest.len());
                lemma_child_below(t, k, j - rest.len());
                lemma_subtree_depth(t, next[i], next[j]);
                assert(kids[i - rest.len()] != kids[j - rest.len()]);
            }
        }
    }
    assert forall|d: u64| #[trigger] t.under(next, d) <==> t.under(tops, d) && d != k by {
        if t.under(next, d) {
            let i = choose|i: int| 0 <= i < next.len() && t.in_subtree(#[trigger] next[i], d);
            if i < rest.len() {
                assert(next[i] == tops[i]);
                assert(t.in_subtree(tops[i], d));
                if d == k {
                    assert(t.in_subtree(tops[i], tops[last]));
                }
            } else {
                lemma_child_below(t, k, i - rest.len());
                lemma_subtree_trans(t, k, next[i], d);
                assert(t.in_subtree(tops[last], d));
                lemma_subtree_depth(t, next[i], d);
            }
        }
        if t.under(tops, d) && d != k {
            let i = choose|i: int| 0 <= i < tops.len() && t.in_subtree(#[trigger] tops[i], d);
            if i < rest.len() {
                assert(next[i] == tops[i]);
                assert(t.in_subtree(next[i], d));
            } else {
                lemma_child_split(t, k, d);
                let j = choose|j: int| 0 <= j < kids.len() && t.in_subtree(#[trigger] kids[j], d);
                assert(next[rest.len() + j] == kids[j]);
                assert(t.in_subtree(next[rest.len() + j], d));
            }
        }
    }
}

/// What `order` leaves out of the children of `k` are children of `k`, and
/// `k` lies in the subtree of none of them.
pub proof fn lemma_dropped<V>(t: TreeView<V>, k: u64, order: Seq<u64>)
    requires
        t.wf(),
        t.contains(k),
    ensures
        ({
            let dropped = minus(t.children(k), order);
            &&& dropped.no_duplicates()
            &&& forall|x: u64| #[trigger]
                dropped.contains(x) <==> t.children(k).contains(x) && !order.contains(x)
            &&& forall|i: int|
                0 <= i < dropped.len() ==> t.is_child(#[trigger] dropped[i], k) && t.depth(
                    dropped[i],
                ) == t.depth(k) + 1 && t.in_subtree(dropped[i], dropped[i])
            &&& !t.under(dropped, k)
            &&& t.apart(dropped)
        }),
{
    let kids = t.children(k);
    let dropped = minus(kids, order);
    assert(t.node_ok(k));
    lemma_filter_keeps(kids, not_in(order));
    assert forall|i: int| 0 <= i < dropped.len() implies t.is_child(#[trigger] dropped[i], k)
        && t.depth(dropped[i]) == t.depth(k) + 1 && t.in_subtree(dropped[i], dropped[i]) by {
        assert(dropped.contains(dropped[i]));
        let j = choose|j: int| 0 <= j < kids.len() && kids[j] == dropped[i];
        lemma_child_below(t, k, j);
    }
    if t.under(dropped, k) {
        let i = choose|i: int| 0 <= i < dropped.len() && t.in_subtree(#[trigger] dropped[i], k);
        lemma_subtree_depth(t, dropped[i], k);
    }
    assert forall|i: int, j: int|
        0 <= i < dropped.len() && 0 <= j < dropped.len() && i != j implies !t.in_subtree(
        #[trigger] dropped[i],
        #[trigger] dropped[j],
    ) by {
        if t.in_subtree(dropped[i], dropped[j]) {
            lemma_subtree_depth(t, dropped[i], dropped[j]);
        }
    }
}

/// A tree whose node `k` keeps some of its children, in any order, and loses
/// the others with their subtrees, is a tree.
pub proof fn lemma_with_children_wf<V>(t: TreeView<V>, k: u64, order: Seq<u64>)
    requires
        t.wf(),
        t.can_reorder(k, order),
    ensures
        t.with_children(k, order).wf(),
{
    let kids = t.children(k);
    let dropped = minus(kids, order);
    let gone = t.under_set(dropped);
    let u = t.with_children(k, order);
    lemma_dropped(t, k, order);
    assert(!gone.contains(k));
    assert(u.nodes.dom() =~= t.nodes.dom().difference(gone));
    // What lies below a node that is gone is gone, and what is gone lies below
    // a node that is gone unless it is one of the children left out.
    assert forall|d: u64, q: u64|
        t.contains(d) && t.parent(d) == Some(q) && #[trigger] gone.contains(q) implies #[trigger] gone.contains(d) by {
        let i = choose|i: int| 0 <= i < dropped.len() && t.in_subtree(#[trigger] dropped[i], q);
        assert(t.node_ok(d));
        assert(t.in_subtree(dropped[i], d));
    }
    assert forall|d: u64| #[trigger] gone.contains(d) implies t.contains(d) && (dropped.contains(d)
        || (t.parent(d).is_some() && gone.contains(t.parent(d).unwrap()))) by {
        let i = choose|i: int| 0 <= i < dropped.len() && t.in_subtree(#[trigger] dropped[i], d);
        if d != dropped[i] {
            assert(t.in_subtree(dropped[i], t.parent(d).unwrap()));
        }
    }
    match t.root {
        Some(r) => {
            if gone.contains(r) {
                let i = choose|i: int|
                    0 <= i < dropped.len() && t.in_subtree(#[trigger] dropped[i], r);
                lemma_subtree_depth(t, dropped[i], r);
                assert(t.node_ok(r));
            }
        },
        None => {},
    }
    assert forall|d: u64| #[trigger] u.nodes.contains_key(d) implies u.node_ok(d) by {
        assert(t.node_ok(d));
        assert(t.contains(d) && !gone.contains(d));
        let n = u.nodes[d];
        assert forall|i: int| 0 <= i < n.children.len() implies u.is_child(
            #[trigger] n.children[i],
            d,
        ) by {
            let c = n.children[i];
            if d == k {
                assert(kids.contains(order[i]));
                let j = choose|j: int| 0 <= j < kids.len() && kids[j] == c;
                assert(t.is_child(kids[j], k));
            } else {
                assert(t.is_child(t.children(d)[i], d));
            }
            assert(t.is_child(c, d));
            if gone.contains(c) {
                if dropped.contains(c) {
                    assert(d == k);
                    assert(order.contains(order[i]));
                }
            }
        }
        match n.parent {
            Some(q) => {
                assert(!gone.contains(q));
                if q == k {
                    if !order.contains(d) {
                        assert(dropped.contains(d));
                        let i = choose|i: int| 0 <= i < dropped.len() && dropped[i] == d;
                        assert(t.in_subtree(dropped[i], d));
                        assert(t.under(dropped, d));
                    }
                }
            },
            None => {},
        }
    }
}

/// To remove a node that is not the root is to leave it out of the children
/// of its parent.
pub proof fn lemma_remove_as_reorder<V>(t: TreeView<V>, k: u64)
    requires
        t.wf(),
        t.contains(k),
        t.root != Some(k),
    ensures
        t.parent(k).is_some(),
        t.can_reorder(t.parent(k).unwrap(), without(t.children(t.parent(k).unwrap()), k)),
        t.under_set(minus(t.children(t.parent(k).unwrap()), without(t.children(t.parent(k).unwrap()), k)))
            == t.subtree(k),
        t.remove_subtree(k) == t.with_children(
            t.parent(k).unwrap(),
            without(t.children(t.parent(k).unwrap()), k),
        ),
        t.remove_subtree(k).wf(),
{
    assert(t.node_ok(k));
    let p = t.parent(k).unwrap();
    let kids = t.children(p);
    let order = without(kids, k);
    let dropped = minus(kids, order);
    lemma_filter_keeps(kids, other_than(k));
    lemma_dropped(t, p, order);
    assert forall|i: int| 0 <= i < order.len() implies kids.contains(#[trigger] order[i]) by {
        assert(order.contains(order[i]));
    }
    assert(dropped.contains(k));
    assert forall|d: u64| t.under(dropped, d) <==> t.in_subtree(k, d) by {
        if t.under(dropped, d) {
            let i = choose|i: int| 0 <= i < dropped.len() && t.in_subtree(#[trigger] dropped[i], d);
            assert(dropped.contains(dropped[i]));
        }
        if t.in_subtree(k, d) {
            let i = choose|i: int| 0 <= i < dropped.len() && dropped[i] == k;
            assert(t.in_subtree(dropped[i], d));
        }
    }
    assert(t.under_set(dropped) =~= t.subtree(k));
    lemma_with_children_wf(t, p, order);
}

/// What is left when one item is taken out in order: the other items, each
/// once if they were there once.
pub proof fn lemma_without(s: Seq<u64>, x: u64)
    ensures
        forall|z: u64| #[trigger] without(s, x).contains(z) <==> s.contains(z) && z != x,
        s.no_duplicates() ==> without(s, x).no_duplicates(),
{
    lemma_filter_keeps(s, other_than(x));
}

/// What is left when one item is swapped out: the other items, each once if
/// they were there once.
pub proof fn lemma_swap_out(s: Seq<u64>, x: u64)
    requires
        s.no_duplicates(),
    ensures
        forall|z: u64| #[trigger] swap_out(s, x).contains(z) <==> s.contains(z) && z != x,
        swap_out(s, x).no_duplicates(),
{
    let out = swap_out(s, x);
    if s.contains(x) {
        let at = s.index_of(x);
        let last = s.len() - 1;
        assert forall|z: u64| #[trigger] out.contains(z) <==> s.contains(z) && z != x by {
            if out.contains(z) {
                let i = choose|i: int| 0 <= i < out.len() && out[i] == z;
                if i == at {
                    assert(s[last] == z);
                } else {
                    assert(s[i] == z);
                }
            }
            if s.contains(z) && z != x {
                let i = choose|i: int| 0 <= i < s.len() && s[i] == z;
                if i == last {
                    assert(out[at] == z);
                } else {
                    assert(out[i] == z);
                }
            }
        }
    }
}

/// A new last item keeps a sequence free of duplicates.
pub proof fn lemma_push_new(s: Seq<u64>, x: u64)
    requires
        s.no_duplicates(),
        !s.contains(x),
    ensures
        s.push(x).no_duplicates(),
        forall|z: u64| #[trigger] s.push(x).contains(z) <==> s.contains(z) || z == x,
{
    let out = s.push(x);
    assert forall|z: u64| #[trigger] out.contains(z) <==> s.contains(z) || z == x by {
        if out.contains(z) {
            let i = choose|i: int| 0 <= i < out.len() && out[i] == z;
            if i < s.len() {
                assert(s[i] == z);
            }
        }
        if s.contains(z) {
            let i = choose|i: int| 0 <= i < s.len() && s[i] == z;
            assert(out[i] == z);
        }
        if z == x {
            assert(out[s.len() as int] == z);
        }
    }
}

/// A tree in which a subtree has moved under a node outside it is a tree.
pub proof fn lemma_moved_wf<V>(t: TreeView<V>, k: u64, np: u64)
    requires
        t.wf(),
        t.can_rebase(k, np),
        !t.in_subtree(k, np),
    ensures
        t.parent(k).is_some(),
        t.moved(k, np).wf(),
{
    let u = t.moved(k, np);
    assert(t.node_ok(k));
    assert(t.node_ok(np));
    lemma_root_above_all(t, np);
    let op = t.parent(k).unwrap();
    assert(t.node_ok(op));
    lemma_without(t.children(op), k);
    assert(u.nodes.dom() =~= t.nodes.dom());
    if t.children(np).contains(k) {
        let i = choose|i: int| 0 <= i < t.children(np).len() && t.children(np)[i] == k;
        assert(t.is_child(t.children(np)[i], np));
    }
    lemma_push_new(t.children(np), k);
    assert forall|d: u64| #[trigger] u.nodes.contains_key(d) implies u.node_ok(d) by {
        assert(t.node_ok(d));
        let n = u.nodes[d];
        assert forall|i: int| 0 <= i < n.children.len() implies u.is_child(
            #[trigger] n.children[i],
            d,
        ) by {
            let c = n.children[i];
            assert(n.children.contains(c));
            if c != k {
                assert(t.children(d).contains(c));
                let j = choose|j: int| 0 <= j < t.children(d).len() && t.children(d)[j] == c;
                assert(t.is_child(t.children(d)[j], d));
            } else if d != np {
                assert(t.children(d).contains(k));
                let j = choose|j: int| 0 <= j < t.children(d).len() && t.children(d)[j] == k;
                assert(t.is_child(t.children(d)[j], d));
            }
        }
        if d == k {
            lemma_subtree_depth(t, k, k);
            assert(t.in_subtree(k, k));
        } else {
            match t.parent(d) {
                Some(q) => {
                    assert(t.children(q).contains(d));
                    assert(u.children(q).contains(d));
                    assert(t.in_subtree(k, d) == t.in_subtree(k, q));
                    if t.in_subtree(k, d) {
                        lemma_subtree_depth(t, k, q);
                    }
                },
                None => {
                    if t.in_subtree(k, d) {
                        lemma_subtree_depth(t, k, d);
                    }
                },
            }
        }
    }
}

/// A tree in which a node has moved under one of its own descendants, and
/// the descendant has taken its place, is a tree.
pub proof fn lemma_rotated_wf<V>(t: TreeView<V>, x: u64, y: u64)
    requires
        t.wf(),
        x != y,
        t.in_subtree(x, y),
    ensures
        t.can_rebase(x, y),
        t.parent(y).is_some(),
        t.in_subtree(x, t.parent(y).unwrap()),
        t.parent(x) != Some(y),
        t.parent(x) != t.parent(y),
        t.rotated(x, y).wf(),
{
    let u = t.rotated(x, y);
    lemma_subtree_depth(t, x, y);
    assert(t.node_ok(x));
    assert(t.node_ok(y));
    let p = t.parent(x);
    let q = t.parent(y).unwrap();
    assert(t.node_ok(q));
    assert(t.in_subtree(x, q));
    lemma_subtree_depth(t, x, q);
    assert(u.nodes.dom() =~= t.nodes.dom());
    lemma_swap_out(t.children(q), y);
    if t.children(y).contains(x) {
        let i = choose|i: int| 0 <= i < t.children(y).len() && t.children(y)[i] == x;
        assert(t.is_child(t.children(y)[i], y));
    }
    lemma_push_new(t.children(y), x);
    if t.children(q).contains(x) {
        let i = choose|i: int| 0 <= i < t.children(q).len() && t.children(q)[i] == x;
        assert(t.is_child(t.children(q)[i], q));
    }
    match p {
        Some(pp) => {
            assert(t.node_ok(pp));
            lemma_swap_out(t.children(pp), x);
            if t.children(pp).contains(y) {
                let i = choose|i: int| 0 <= i < t.children(pp).len() && t.children(pp)[i] == y;
                assert(t.is_child(t.children(pp)[i], pp));
            }
            lemma_push_new(swap_out(t.children(pp), x), y);
            if t.in_subtree(y, pp) {
                lemma_subtree_depth(t, y, pp);
            }
            if t.in_subtree(x, pp) {
                lemma_subtree_depth(t, x, pp);
            }
        },
        None => {},
    }
    assert(t.in_subtree(y, y));
    assert(t.in_subtree(x, x));
    assert forall|d: u64| #[trigger] u.nodes.contains_key(d) implies u.node_ok(d) by {
        assert(t.node_ok(d));
        let n = u.nodes[d];
        assert forall|i: int| 0 <= i < n.children.len() implies u.is_child(
            #[trigger] n.children[i],
            d,
        ) by {
            let c = n.children[i];
            assert(n.children.contains(c));
            if (d == y && c == x) || (p == Some(d) && c == y) {
            } else {
                assert(t.children(d).contains(c));
                let j = choose|j: int| 0 <= j < t.children(d).len() && t.children(d)[j] == c;
                assert(t.is_child(t.children(d)[j], d));
            }
        }
        if d == x {
            assert(u.children(y).contains(x));
        } else if d == y {
        } else {
            match t.parent(d) {
                Some(r) => {
                    assert(t.children(r).contains(d));
                    assert(u.children(r).contains(d));
                    assert(t.in_subtree(x, d) == t.in_subtree(x, r));
                    assert(t.in_subtree(y, d) == t.in_subtree(y, r));
                    if t.in_subtree(y, d) {
                        lemma_subtree_depth(t, y, r);
                    }
                },
                None => {
                    if t.in_subtree(x, d) {
                        lemma_subtree_depth(t, x, d);
                    }
                    if t.in_subtree(y, d) {
                        lemma_subtree_depth(t, y, d);
                    }
                },
            }
        }
    }
}

/// A move keeps the moved subtree together: what lay under `k` lies under it
/// afterwards.
pub proof fn lemma_moved_subtree<V>(t: TreeView<V>, k: u64, np: u64, d: u64)
    requires
        t.wf(),
        t.can_rebase(k, np),
        !t.in_subtree(k, np),
        t.in_subtree(k, d),
    ensures
        t.moved(k, np).in_subtree(k, d),
    decreases t.nodes[d].depth,
{
    let u = t.moved(k, np);
    lemma_moved_wf(t, k, np);
    if d != k {
        assert(u.nodes.contains_key(d));
        assert(u.node_ok(d));
        lemma_moved_subtree(t, k, np, t.parent(d).unwrap());
    }
}

/// After a rotation, all that lay under `x` lies under `y`.
pub proof fn lemma_rotated_subtree<V>(t: TreeView<V>, x: u64, y: u64, d: u64)
    requires
        t.wf(),
        x != y,
        t.in_subtree(x, y),
        t.in_subtree(x, d),
    ensures
        t.rotated(x, y).in_subtree(y, d),
    decreases t.nodes[d].depth,
{
    let u = t.rotated(x, y);
    lemma_rotated_wf(t, x, y);
    lemma_subtree_depth(t, x, d);
    assert(u.nodes.contains_key(d));
    assert(u.node_ok(d));
    assert(u.nodes.contains_key(y));
    assert(u.in_subtree(y, y));
    if d == x {
    } else if d == y {
    } else {
        lemma_rotated_subtree(t, x, y, t.parent(d).unwrap());
    }
}

/// A tree with another value at one of its nodes is a tree.
pub proof fn lemma_with_value_wf<V>(t: TreeView<V>, k: u64, value: V)
    requires
        t.wf(),
        t.contains(k),
    ensures
        t.with_value(k, value).wf(),
{
    let u = t.with_value(k, value);
    assert(u.nodes.dom() =~= t.nodes.dom());
    assert forall|d: u64| #[trigger] u.nodes.contains_key(d) implies u.node_ok(d) by {
        assert(t.node_ok(d));
        let n = u.nodes[d];
        assert forall|i: int| 0 <= i < n.children.len() implies u.is_child(
            #[trigger] n.children[i],
            d,
        ) by {
            assert(t.is_child(t.children(d)[i], d));
        }
    }
}

/// The nearest common node of `a` and `b` has both in its subtree, and lies
/// in the subtree of every node that has both.
pub proof fn lemma_nearest_common<V>(t: TreeView<V>, a: u64, b: u64)
    requires
        t.wf(),
        t.contains(a),
        t.contains(b),
    ensures
        t.in_subtree(t.nearest_common(a, b), a),
        t.in_subtree(t.nearest_common(a, b), b),
        forall|c: u64|
            t.in_subtree(c, a) && #[trigger] t.in_subtree(c, b) ==> t.in_subtree(
                c,
                t.nearest_common(a, b),
            ),
    decreases t.nodes[b].depth,
{
    assert(t.node_ok(b));
    assert(t.in_subtree(b, b));
    if !t.in_subtree(b, a) {
        match t.nodes[b].parent {
            Some(p) => {
                lemma_nearest_common(t, a, p);
                assert forall|c: u64|
                    t.in_subtree(c, a) && #[trigger] t.in_subtree(c, b) implies t.in_subtree(
                    c,
                    t.nearest_common(a, b),
                ) by {
                    assert(t.in_subtree(c, p));
                }
            },
            None => {
                lemma_root_above_all(t, a);
            },
        }
    }
}

/// The subtrees of the children of a node lie apart, and together they hold
/// the descendants of the node.
pub proof fn lemma_children_cover<V>(t: TreeView<V>, k: u64)
    requires
        t.wf(),
        t.contains(k),
    ensures
        t.apart(t.children(k)),
        forall|i: int| 0 <= i < t.children(k).len() ==> t.contains(#[trigger] t.children(k)[i]),
        forall|d: u64| #[trigger] t.under(t.children(k), d) <==> t.in_subtree(k, d) && d != k,
        t.under_set(t.children(k)) == t.descendants(k),
{
    let kids = t.children(k);
    assert(t.node_ok(k));
    assert forall|i: int| 0 <= i < kids.len() implies t.contains(#[trigger] kids[i]) by {
        lemma_child_below(t, k, i);
    }
    assert forall|i: int, j: int|
        0 <= i < kids.len() && 0 <= j < kids.len() && i != j implies !t.in_subtree(
        #[trigger] kids[i],
        #[trigger] kids[j],
    ) by {
        lemma_child_below(t, k, i);
        lemma_child_below(t, k, j);
        if t.in_subtree(kids[i], kids[j]) {
            lemma_subtree_depth(t, kids[i], kids[j]);
        }
    }
    assert forall|d: u64| #[trigger] t.under(kids, d) <==> t.in_subtree(k, d) && d != k by {
        if t.under(kids, d) {
            let i = choose|i: int| 0 <= i < kids.len() && t.in_subtree(#[trigger] kids[i], d);
            lemma_child_below(t, k, i);
            lemma_subtree_trans(t, k, kids[i], d);
            lemma_subtree_depth(t, kids[i], d);
        }
        if t.in_subtree(k, d) && d != k {
            lemma_child_split(t, k, d);
        }
    }
    assert(t.under_set(kids) =~= t.descendants(k));
}

} // verus!
