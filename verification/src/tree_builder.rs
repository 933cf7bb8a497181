//! A builder that describes the shape of a tree before the tree exists.
//!
//! Values are staged under positions: the root has position 0, and the value
//! staged as the `i`-th after it has position `i`. A value names its parent by
//! position. `finish` turns what was staged into a tree.

use vstd::prelude::*;
use crate::handles::MAX_NODES;
use crate::model::TreeView;
use crate::tree::Tree;

verus! {

/// The values of a tree to be, each but the first with the position of its
/// parent.
#[derive(Debug, Clone, PartialEq, Eq)]
pub struct TreeBuilder<V>(Option<(V, Vec<(V, usize)>)>);

/// The tree that `finish` makes: the root under `keys[0]`, and the value at
/// position `i` under `keys[i]`, each put in as the last child of its parent,
/// in the order of the positions.
pub open spec fn grown<V>(root_value: V, hooks: Seq<(V, usize)>, keys: Seq<u64>) -> TreeView<V>
    decreases hooks.len(),
{
    if hooks.len() == 0 {
        TreeView::single(keys[0], root_value)
    } else {
        grown(root_value, hooks.drop_last(), keys.drop_last()).with_child(
            keys[hooks.last().1 as int],
            keys.last(),
            hooks.last().0,
        )
    }
}

/// `hooks` with every position moved up by `by`.
pub open spec fn shifted<V>(hooks: Seq<(V, usize)>, by: nat) -> Seq<(V, usize)> {
    Seq::new(hooks.len(), |i: int| (hooks[i].0, (hooks[i].1 + by) as usize))
}

impl<V> TreeBuilder<V> {
    /// The value staged as the root, if there is one.
    pub closed spec fn root(self) -> Option<V> {
        match self.0 {
            Some(staged) => Some(staged.0),
            None => None,
        }
    }

    /// The values staged after the root, each with the position of its parent.
    pub closed spec fn hooks(self) -> Seq<(V, usize)> {
        match self.0 {
            Some(staged) => staged.1@,
            None => Seq::empty(),
        }
    }

    /// Every value names a parent that was staged before it, and nothing is
    /// staged without a root.
    pub open spec fn wf(self) -> bool {
        &&& self.root().is_none() ==> self.hooks().len() == 0
        &&& forall|i: int| 0 <= i < self.hooks().len() ==> (#[trigger] self.hooks()[i]).1 <= i
    }

    /// Stages the root, and returns its position, 0. A builder takes one root.
    pub fn push_root(&mut self, root_value: V) -> (index: usize)
        requires
            old(self).root().is_none(),
        ensures
            index == 0,
            final(self).root() == Some(root_value),
            final(self).hooks() == Seq::<(V, usize)>::empty(),
            final(self).wf(),
    {
        self.0 = Some((root_value, Vec::new()));
        0
    }

    /// Stages `value` as a child of the value at `parent_index`, and returns
    /// the position of `value`. The root must have been staged, and
    /// `parent_index` must be a position that is taken.
    pub fn push(&mut self, value: V, parent_index: usize) -> (index: usize)
        requires
            old(self).wf(),
            old(self).root().is_some(),
            parent_index <= old(self).hooks().len(),
            old(self).hooks().len() < usize::MAX,
        ensures
            index == old(self).hooks().len() + 1,
            final(self).root() == old(self).root(),
            final(self).hooks() == old(self).hooks().push((value, parent_index)),
            final(self).wf(),
    {
        match &mut self.0 {
            Some(staged) => {
                let length = staged.1.len();
                let augmented_length = length + 1;
                staged.1.push((value, parent_index));
                augmented_length
            },
            None => vstd::pervasive::unreached(),
        }
    }
}

impl<V> TreeBuilder<V> {
    /// Stages all of `other` under the value at `parent_index`: the root of
    /// `other` becomes a child of that value, and the rest of `other` follows
    /// with its positions moved up. A builder without a root takes `other` as
    /// it is, and an `other` without a root changes nothing. Where both have a
    /// root, `parent_index` must be a position that is taken.
    pub fn extend(&mut self, other: Self, parent_index: usize)
        requires
            old(self).wf(),
            other.wf(),
            old(self).root().is_some() && other.root().is_some() ==> parent_index <= old(self).hooks().len() && old(self).hooks().len() + other.hooks().len() + 2 <= usize::MAX,
        ensures
            final(self).wf(),
            match (old(self).root(), other.root()) {
                (Some(root_value), Some(other_root_value)) => final(self).root() == Some(root_value)
                    && final(self).hooks() == old(self).hooks().push(
                    (other_root_value, parent_index),
                ) + shifted(other.hooks(), old(self).hooks().len() + 1),
                (Some(root_value), None) => final(self).root() == Some(root_value) && final(self).hooks() == old(self).hooks(),
                (None, _) => final(self).root() == other.root() && final(self).hooks()
                    == other.hooks(),
            },
    {
        let mut mine: Option<(V, Vec<(V, usize)>)> = None;
        std::mem::swap(&mut self.0, &mut mine);
        match (mine, other.0) {
            (Some((root_value, mut hooks)), Some((other_root_value, other_hooks))) => {
                let ghost before = hooks@;
                let ghost added = other_hooks@;
                let length = hooks.len();
                let augmented_length = length + 1;
                let other_length = other_hooks.len();
                let other_augmented_length = other_length + 1;
                hooks.reserve(other_augmented_length);
                hooks.push((other_root_value, parent_index));
                for hook in iter: other_hooks.into_iter()
                    invariant
                        iter.seq() == added,
                        augmented_length == before.len() + 1,
                        before.len() + added.len() + 2 <= usize::MAX,
                        forall|i: int| 0 <= i < added.len() ==> (#[trigger] added[i]).1 <= i,
                        hooks@ == before.push((other_root_value, parent_index)) + shifted(
                            added,
                            augmented_length as nat,
                        ).take(iter.index()),
                {
                    let (value, other_parent_index) = hook;
                    hooks.push((value, augmented_length + other_parent_index));
                    proof {
                        let done = shifted(added, augmented_length as nat);
                        assert(done.take(iter.index() + 1) =~= done.take(iter.index()).push(
                            done[iter.index()],
                        ));
                    }
                }
                proof {
                    let done = shifted(added, augmented_length as nat);
                    assert(done.take(added.len() as int) =~= done);
                }
                self.0 = Some((root_value, hooks));
            },
            (Some(staged), None) => {
                self.0 = Some(staged);
            },
            (None, Some(staged)) => {
                self.0 = Some(staged);
            },
            (None, None) => {},
        }
    }

    /// Makes the tree that was staged: the root first, then each value as the
    /// last child of its parent, in the order of the positions. A builder
    /// without a root gives an empty tree. The builder must hold no more
    /// values than a tree has room for.
    pub fn finish(self) -> (tree: Tree<V>)
        requires
            self.wf(),
            self.hooks().len() < MAX_NODES,
        ensures
            tree.wf(),
            match self.root() {
                None => tree@ == TreeView::<V>::empty(),
                Some(root_value) => exists|keys: Seq<u64>|
                    keys.len() == self.hooks().len() + 1 && keys.no_duplicates() && tree@
                        == #[trigger] grown(root_value, self.hooks(), keys),
            },
    {
        let grown_tree = match self.0 {
            None => Tree::default(),
            Some((root_value, hooks)) => {
                let ghost staged = hooks@;
                let length = hooks.len();
                let augmented_length = length + 1;
                let mut tree = Tree::with_capacity(augmented_length);
                let mut keys: Vec<u64> = Vec::with_capacity(augmented_length);
                let root_key = tree.insert_root(root_value);
                keys.push(root_key);
                proof {
                    assert(staged.take(0) =~= Seq::<(V, usize)>::empty());
                    assert(tree@.nodes.dom() =~= keys@.to_set());
                }
                for hook in iter: hooks.into_iter()
                    invariant
                        iter.seq() == staged,
                        staged.len() < MAX_NODES,
                        forall|i: int| 0 <= i < staged.len() ==> (#[trigger] staged[i]).1 <= i,
                        tree.wf(),
                        keys@.len() == iter.index() + 1,
                        keys@.no_duplicates(),
                        tree@.nodes.dom() == keys@.to_set(),
                        tree@ == grown(root_value, staged.take(iter.index()), keys@),
                {
                    let (value, parent_index) = hook;
                    let ghost held = keys@;
                    proof {
                        held.unique_seq_to_set();
                        assert(held.to_set().contains(held[parent_index as int]));
                    }
                    let parent_key = keys[parent_index];
                    let key = tree.insert(value, parent_key).unwrap();
                    keys.push(key);
                    proof {
                        let upto = staged.take(iter.index() + 1);
                        assert(upto.drop_last() =~= staged.take(iter.index()));
                        assert(keys@.drop_last() =~= held);
                        assert(tree@.nodes.dom() =~= keys@.to_set());
                        assert forall|i: int, j: int|
                            0 <= i < j < keys@.len() implies keys@[i] != keys@[j] by {
                            if j == held.len() {
                                assert(held.to_set().contains(held[i]));
                            }
                        }
                    }
                }
                proof {
                    assert(staged.take(staged.len() as int) =~= staged);
                    assert(tree@ == grown(root_value, self.hooks(), keys@));
                }
                tree
            },
        };
        assert(self.root().is_some() ==> exists|keys: Seq<u64>|
            keys.len() == self.hooks().len() + 1 && keys.no_duplicates() && grown_tree@
                == #[trigger] grown(self.root().unwrap(), self.hooks(), keys));
        grown_tree
    }
}

impl<V> Default for TreeBuilder<V> {
    /// A builder in which nothing is staged.
    fn default() -> (builder: Self)
        ensures
            builder.root().is_none(),
            builder.hooks() == Seq::<(V, usize)>::empty(),
            builder.wf(),
    {
        TreeBuilder(None)
    }
}

} // verus!
