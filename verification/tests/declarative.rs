use std::collections::BTreeMap;

use indexmap::IndexSet;
use slotmap::{DefaultKey, Key};
use tinytree::{Relationship, Tree};

/// A handle that no tree ever grants: the 64-bit form of the slot map's null key.
fn null_key() -> u64 {
    DefaultKey::default().data().as_ffi()
}

#[derive(Debug, Clone, PartialEq, Eq)]
struct DeclarativeNode<K, V>
where
    K: Copy + Ord,
    V: Copy,
{
    id: K,
    value: V,
    child_declarative_nodes: Vec<Self>,
}

fn node<K, V>(id: K, value: V, children: Vec<DeclarativeNode<K, V>>) -> DeclarativeNode<K, V>
where
    K: Copy + Ord,
    V: Copy,
{
    DeclarativeNode {
        id,
        value,
        child_declarative_nodes: children,
    }
}

struct DeclarativeTree<K, V>
where
    K: Copy + Ord,
    V: Copy,
{
    tree: Tree<V>,
    key_map: BTreeMap<K, u64>,
}

fn get_or_default<K>(key_map: &BTreeMap<K, u64>, id: K) -> u64
where
    K: Copy + Ord,
{
    key_map.get(&id).copied().unwrap_or_else(null_key)
}

fn invert<A, B>(key_map: &BTreeMap<A, B>) -> BTreeMap<B, A>
where
    A: Copy + Ord,
    B: Copy + Ord,
{
    let mut inverse_map = BTreeMap::default();
    for (&value, &key) in key_map.iter() {
        let previous_value = inverse_map.insert(key, value);
        assert!(previous_value.is_none());
    }
    inverse_map
}

fn construct_tree<K, V>(
    tree: &mut Tree<V>,
    key_map: &mut BTreeMap<K, u64>,
    declarative_node: &DeclarativeNode<K, V>,
    parent_key: Option<u64>,
) where
    K: Copy + Ord,
    V: Copy,
{
    let key = match parent_key {
        Some(parent_key) => tree.insert(declarative_node.value, parent_key).unwrap(),
        None => tree.insert_root(declarative_node.value),
    };
    let previous_value = key_map.insert(declarative_node.id, key);
    assert!(previous_value.is_none());
    for child in declarative_node.child_declarative_nodes.iter() {
        construct_tree(tree, key_map, child, Some(key));
    }
}

fn construct_node<K, V>(
    tree: &Tree<V>,
    inverse_key_map: &BTreeMap<u64, K>,
    key: u64,
    parent_key: Option<u64>,
    depth: usize,
) -> DeclarativeNode<K, V>
where
    K: Copy + Ord,
    V: Copy,
{
    let node = tree.get(key).unwrap();
    assert_eq!(parent_key, node.parent_key);
    assert_eq!(depth, node.depth);
    let id = *inverse_key_map.get(&key).unwrap();
    let child_declarative_nodes = node
        .child_keys
        .iter()
        .map(|&child_key| construct_node(tree, inverse_key_map, child_key, Some(key), depth + 1))
        .collect();
    DeclarativeNode {
        id,
        value: *node.value,
        child_declarative_nodes,
    }
}

impl<K, V> DeclarativeTree<K, V>
where
    K: Copy + Ord,
    V: Copy,
{
    fn from_declarative_node(declarative_node: Option<&DeclarativeNode<K, V>>) -> Self {
        let mut tree = Tree::default();
        let mut key_map = BTreeMap::default();
        if let Some(declarative_node) = declarative_node {
            construct_tree(&mut tree, &mut key_map, declarative_node, None);
        }
        Self { tree, key_map }
    }

    fn into_declarative_node(&self) -> Option<DeclarativeNode<K, V>> {
        self.tree.root_key().map(|root_key| {
            let inverse_key_map = invert(&self.key_map);
            construct_node(&self.tree, &inverse_key_map, root_key, None, 0)
        })
    }

    #[allow(dead_code)]
    fn insert_root(&mut self, root_id: K, value: V) {
        let root_key = self.tree.insert_root(value);
        let previous_value = self.key_map.insert(root_id, root_key);
        assert!(previous_value.is_none());
    }

    #[allow(dead_code)]
    fn insert(&mut self, id: K, value: V, parent_id: K) -> bool {
        let parent_key = get_or_default(&self.key_map, parent_id);
        self.tree
            .insert(value, parent_key)
            .map(|key| {
                let previous_value = self.key_map.insert(id, key);
                assert!(previous_value.is_none());
            })
            .is_some()
    }

    #[allow(dead_code)]
    fn reorder_children<F>(&mut self, id: K, get_reordered_ids: F) -> bool
    where
        F: FnOnce(&Vec<K>) -> Vec<K>,
    {
        let key = get_or_default(&self.key_map, id);
        let old_child_keys = self.tree.get(key).map(|node| node.child_keys.clone());
        let key_map = self.key_map.clone();
        let inverse_key_map = invert(&self.key_map);

        let did_reorder = self.tree.reorder_children(key, |current_child_keys| {
            let current_child_ids = current_child_keys
                .iter()
                .map(|current_child_key| *inverse_key_map.get(current_child_key).unwrap())
                .collect();
            let mut reordered_children = get_reordered_ids(&current_child_ids);
            reordered_children.dedup();
            reordered_children
                .iter()
                .map(|&id| get_or_default(&key_map, id))
                .collect::<IndexSet<u64>>()
        });

        if did_reorder {
            let old_child_keys = old_child_keys.unwrap();
            let new_child_keys = self
                .tree
                .get(key)
                .map(|node| node.child_keys.clone())
                .unwrap();
            let mut inverse_key_map = inverse_key_map;
            for &key in old_child_keys.difference(&new_child_keys) {
                let id = inverse_key_map.remove(&key).unwrap();
                let removed_key = self.key_map.remove(&id).unwrap();
                assert_eq!(key, removed_key);
            }
            assert!(new_child_keys.difference(&old_child_keys).next().is_none());
        }

        did_reorder
    }

    #[allow(dead_code)]
    fn remove(&mut self, id: K) -> Option<V> {
        let key = get_or_default(&self.key_map, id);
        let value = self.tree.remove(key, None);
        if value.is_some() {
            self.key_map.remove(&id).unwrap();
        };
        value
    }

    #[allow(dead_code)]
    fn rebase(&mut self, id: K, new_parent_id: K) -> bool {
        let key = get_or_default(&self.key_map, id);
        let new_parent_key = get_or_default(&self.key_map, new_parent_id);
        self.tree.rebase(key, new_parent_key, None)
    }

    #[allow(dead_code)]
    fn get_relationship(&self, id_1: K, id_2: K) -> Option<Relationship<K>> {
        let key_1 = get_or_default(&self.key_map, id_1);
        let key_2 = get_or_default(&self.key_map, id_2);

        self.tree
            .get_relationship(key_1, key_2)
            .map(|relationship| match relationship {
                Relationship::Same => Relationship::Same,
                Relationship::Ancestral {
                    ancestor_key,
                    descendent_key,
                } => {
                    if ancestor_key == key_1 && descendent_key == key_2 {
                        Relationship::Ancestral {
                            ancestor_key: id_1,
                            descendent_key: id_2,
                        }
                    } else if ancestor_key == key_2 && descendent_key == key_1 {
                        Relationship::Ancestral {
                            ancestor_key: id_2,
                            descendent_key: id_1,
                        }
                    } else {
                        unreachable!()
                    }
                }
                Relationship::Siblings {
                    common_ancestor_key,
                } => {
                    let inverse_key_map = invert(&self.key_map);
                    let common_ancestor_id = *inverse_key_map.get(&common_ancestor_key).unwrap();
                    Relationship::Siblings {
                        common_ancestor_key: common_ancestor_id,
                    }
                }
            })
    }
}

// Insertion.

#[test]
fn test_insert_into_empty_tree_with_a_non_existent_parent_key() {
    let mut declarative_tree = DeclarativeTree::from_declarative_node(None);

    assert!(!declarative_tree.insert(1, 'a', 0));

    let actual_declarative_node = declarative_tree.into_declarative_node();
    let expected_declarative_node = None;

    assert_eq!(actual_declarative_node, expected_declarative_node);
}

#[test]
fn test_insert_into_single_element_tree_with_a_non_existent_parent_key() {
    let mut declarative_tree = DeclarativeTree::from_declarative_node(Some(&node(0, 'a', vec![])));

    assert!(!declarative_tree.insert(1, 'b', 100));

    let actual_declarative_node = declarative_tree.into_declarative_node();
    let expected_declarative_node = Some(node(0, 'a', vec![]));

    assert_eq!(actual_declarative_node, expected_declarative_node);
}

#[test]
fn test_insert_into_single_element_tree() {
    let mut declarative_tree = DeclarativeTree::from_declarative_node(Some(&node(0, 'a', vec![])));

    assert!(declarative_tree.insert(1, 'b', 0));

    let actual_declarative_node = declarative_tree.into_declarative_node();
    let expected_declarative_node = Some(node(0, 'a', vec![node(1, 'b', vec![])]));

    assert_eq!(actual_declarative_node, expected_declarative_node);
}

#[test]
fn test_insert_into_multi_element_as_a_child() {
    let mut declarative_tree =
        DeclarativeTree::from_declarative_node(Some(&node(0, 'a', vec![node(1, 'b', vec![])])));

    assert!(declarative_tree.insert(2, 'c', 1));

    let actual_declarative_node = declarative_tree.into_declarative_node();
    let expected_declarative_node = Some(node(
        0,
        'a',
        vec![node(1, 'b', vec![node(2, 'c', vec![])])],
    ));

    assert_eq!(actual_declarative_node, expected_declarative_node);
}

#[test]
fn test_insert_into_multi_element_as_a_sibling() {
    let mut declarative_tree = DeclarativeTree::from_declarative_node(Some(&node(
        0,
        'a',
        vec![node(
            1,
            'b',
            vec![node(2, 'c', vec![]), node(3, 'd', vec![])],
        )],
    )));

    assert!(declarative_tree.insert(4, 'e', 0));

    let actual_declarative_node = declarative_tree.into_declarative_node();
    let expected_declarative_node = Some(node(
        0,
        'a',
        vec![
            node(
                1,
                'b',
                vec![node(2, 'c', vec![]), node(3, 'd', vec![])],
            ),
            node(4, 'e', vec![]),
        ],
    ));

    assert_eq!(actual_declarative_node, expected_declarative_node);
}

// Insertion of a root.

#[test]
fn test_insert_root_into_empty_tree() {
    let mut declarative_tree = DeclarativeTree::from_declarative_node(None);

    declarative_tree.insert_root(0, 'a');

    let actual_declarative_node = declarative_tree.into_declarative_node();
    let expected_declarative_node = Some(node(0, 'a', vec![]));

    assert_eq!(actual_declarative_node, expected_declarative_node);
}

#[test]
fn test_insert_root_into_single_element_tree() {
    let mut declarative_tree = DeclarativeTree::from_declarative_node(Some(&node(0, 'a', vec![])));

    declarative_tree.insert_root(1, 'b');

    let actual_declarative_node = declarative_tree.into_declarative_node();
    let expected_declarative_node = Some(node(1, 'b', vec![]));

    assert_eq!(actual_declarative_node, expected_declarative_node);
}

#[test]
fn test_insert_root_into_multi_element_tree() {
    let mut declarative_tree = DeclarativeTree::from_declarative_node(Some(&node(
        0,
        'a',
        vec![
            node(10, 'b', vec![]),
            node(11, 'c', vec![]),
            node(12, 'd', vec![node(22, 'e', vec![node(32, 'f', vec![])])]),
        ],
    )));

    declarative_tree.insert_root(1, 'z');

    let actual_declarative_node = declarative_tree.into_declarative_node();
    let expected_declarative_node = Some(node(1, 'z', vec![]));

    assert_eq!(actual_declarative_node, expected_declarative_node);
}

// Removal.

#[test]
fn test_remove_from_empty_tree() {
    let mut declarative_tree = DeclarativeTree::<_, char>::from_declarative_node(None);

    assert!(declarative_tree.remove(0).is_none());

    let actual_declarative_node = declarative_tree.into_declarative_node();
    let expected_declarative_node = None;

    assert_eq!(actual_declarative_node, expected_declarative_node);
}

#[test]
fn test_remove_a_non_existent_key() {
    let mut declarative_tree =
        DeclarativeTree::<_, char>::from_declarative_node(Some(&node(0, 'a', vec![])));

    assert!(declarative_tree.remove(100).is_none());

    let actual_declarative_node = declarative_tree.into_declarative_node();
    let expected_declarative_node = Some(node(0, 'a', vec![]));

    assert_eq!(actual_declarative_node, expected_declarative_node);
}

#[test]
fn test_remove_root_in_a_single_element_tree() {
    let mut declarative_tree =
        DeclarativeTree::<_, char>::from_declarative_node(Some(&node(0, 'a', vec![])));

    assert_eq!(declarative_tree.remove(0), Some('a'));

    let actual_declarative_node = declarative_tree.into_declarative_node();
    let expected_declarative_node = None;

    assert_eq!(actual_declarative_node, expected_declarative_node);
}

#[test]
fn test_remove_root_in_a_multi_element_tree() {
    let mut declarative_tree = DeclarativeTree::<_, char>::from_declarative_node(Some(&node(
        0,
        'a',
        vec![
            node(1, 'b', vec![node(2, 'c', vec![])]),
            node(3, 'd', vec![]),
        ],
    )));

    assert_eq!(declarative_tree.remove(0), Some('a'));

    let actual_declarative_node = declarative_tree.into_declarative_node();
    let expected_declarative_node = None;

    assert_eq!(actual_declarative_node, expected_declarative_node);
}

#[test]
fn test_remove_node_with_no_children() {
    let mut declarative_tree = DeclarativeTree::<_, char>::from_declarative_node(Some(&node(
        0,
        'a',
        vec![
            node(1, 'b', vec![]),
            node(2, 'c', vec![node(3, 'd', vec![])]),
            node(4, 'e', vec![]),
        ],
    )));

    assert_eq!(declarative_tree.remove(3), Some('d'));

    let actual_declarative_node = declarative_tree.into_declarative_node();
    let expected_declarative_node = Some(node(
        0,
        'a',
        vec![
            node(1, 'b', vec![]),
            node(2, 'c', vec![]),
            node(4, 'e', vec![]),
        ],
    ));

    assert_eq!(actual_declarative_node, expected_declarative_node);
}

#[test]
fn test_remove_node_with_children() {
    let mut declarative_tree = DeclarativeTree::<_, char>::from_declarative_node(Some(&node(
        0,
        'a',
        vec![
            node(1, 'b', vec![]),
            node(2, 'c', vec![node(3, 'd', vec![])]),
            node(4, 'e', vec![]),
        ],
    )));

    assert_eq!(declarative_tree.remove(2), Some('c'));

    let actual_declarative_node = declarative_tree.into_declarative_node();
    let expected_declarative_node = Some(node(
        0,
        'a',
        vec![node(1, 'b', vec![]), node(4, 'e', vec![])],
    ));

    assert_eq!(actual_declarative_node, expected_declarative_node);
}

// Reordering of children.

#[test]
fn test_reorder_children_on_empty_tree() {
    let mut declarative_tree = DeclarativeTree::<_, char>::from_declarative_node(None);

    assert!(!declarative_tree.reorder_children(0, |_| [0, 1, 2, 3].into()));

    let actual_declarative_node = declarative_tree.into_declarative_node();
    let expected_declarative_node = None;

    assert_eq!(actual_declarative_node, expected_declarative_node);
}

#[test]
fn test_reorder_children_on_single_element_tree_with_non_existent_key() {
    let mut declarative_tree = DeclarativeTree::from_declarative_node(Some(&node(0, 'a', vec![])));

    assert!(!declarative_tree.reorder_children(1, |_| [0, 1, 2, 3].into()));

    let actual_declarative_node = declarative_tree.into_declarative_node();
    let expected_declarative_node = Some(node(0, 'a', vec![]));

    assert_eq!(actual_declarative_node, expected_declarative_node);
}

#[test]
fn test_reorder_children_on_single_element_tree() {
    let mut declarative_tree = DeclarativeTree::from_declarative_node(Some(&node(0, 'a', vec![])));

    // Fails if nonsense child-keys are passed in!
    assert!(!declarative_tree.reorder_children(0, |_| [0, 1, 2, 3].into()));

    let actual_declarative_node = declarative_tree.into_declarative_node();
    let expected_declarative_node = Some(node(0, 'a', vec![]));

    assert_eq!(actual_declarative_node, expected_declarative_node);
}

fn reorder_fixture() -> DeclarativeNode<i32, char> {
    node(
        0,
        'a',
        vec![
            node(1, 'b', vec![node(4, 'e', vec![]), node(5, 'f', vec![])]),
            node(2, 'c', vec![]),
            node(3, 'd', vec![node(6, 'g', vec![])]),
        ],
    )
}

#[test]
fn test_reorder_children_with_no_deletions() {
    let mut declarative_tree = DeclarativeTree::from_declarative_node(Some(&reorder_fixture()));

    assert!(declarative_tree.reorder_children(0, |_| [3, 2, 1].into()));

    let actual_declarative_node = declarative_tree.into_declarative_node();
    let expected_declarative_node = Some(node(
        0,
        'a',
        vec![
            node(3, 'd', vec![node(6, 'g', vec![])]),
            node(2, 'c', vec![]),
            node(1, 'b', vec![node(4, 'e', vec![]), node(5, 'f', vec![])]),
        ],
    ));

    assert_eq!(actual_declarative_node, expected_declarative_node);
}

#[test]
fn test_reorder_children_with_deletions() {
    let mut declarative_tree = DeclarativeTree::from_declarative_node(Some(&reorder_fixture()));

    assert!(declarative_tree.reorder_children(0, |_| [3, 2].into()));

    let actual_declarative_node = declarative_tree.into_declarative_node();
    let expected_declarative_node = Some(node(
        0,
        'a',
        vec![node(3, 'd', vec![node(6, 'g', vec![])]), node(2, 'c', vec![])],
    ));

    assert_eq!(actual_declarative_node, expected_declarative_node);
}

// Relationships.

#[test]
fn test_get_relationship_from_empty_tree() {
    let declarative_tree = DeclarativeTree::<_, char>::from_declarative_node(None);

    assert!(declarative_tree.get_relationship(0, 1).is_none());
    assert!(declarative_tree.get_relationship(1, 0).is_none());
}

#[test]
fn test_get_relationship_from_single_element_tree() {
    let declarative_tree =
        DeclarativeTree::<_, char>::from_declarative_node(Some(&node(0, 'a', vec![])));

    assert!(declarative_tree.get_relationship(0, 1).is_none());
    assert!(declarative_tree.get_relationship(1, 0).is_none());
}

#[test]
fn test_get_relationship_from_multi_element_tree_with_non_existent_keys() {
    let declarative_tree = DeclarativeTree::<_, char>::from_declarative_node(Some(&node(
        0,
        'a',
        vec![
            node(1, 'b', vec![]),
            node(2, 'c', vec![node(3, 'd', vec![])]),
        ],
    )));

    assert!(declarative_tree.get_relationship(100, 200).is_none());
    assert!(declarative_tree.get_relationship(200, 100).is_none());
}

fn relationship_fixture() -> DeclarativeNode<i32, char> {
    node(
        0,
        'a',
        vec![
            node(1, 'b', vec![]),
            node(
                2,
                'c',
                vec![
                    node(
                        3,
                        'd',
                        vec![
                            node(4, 'e', vec![]),
                            node(5, 'f', vec![node(6, 'g', vec![]), node(7, 'h', vec![])]),
                        ],
                    ),
                    node(8, 'i', vec![node(9, 'j', vec![])]),
                ],
            ),
        ],
    )
}

#[test]
fn test_get_relationship_from_multi_element_sibling() {
    let declarative_tree =
        DeclarativeTree::<_, char>::from_declarative_node(Some(&relationship_fixture()));

    assert_eq!(
        declarative_tree.get_relationship(7, 9),
        Some(Relationship::Siblings {
            common_ancestor_key: 2
        })
    );
    assert_eq!(
        declarative_tree.get_relationship(9, 7),
        Some(Relationship::Siblings {
            common_ancestor_key: 2
        })
    );
}

#[test]
fn test_get_relationship_from_multi_element_ancestral() {
    let declarative_tree =
        DeclarativeTree::<_, char>::from_declarative_node(Some(&relationship_fixture()));

    assert_eq!(
        declarative_tree.get_relationship(2, 7),
        Some(Relationship::Ancestral {
            ancestor_key: 2,
            descendent_key: 7
        })
    );
    assert_eq!(
        declarative_tree.get_relationship(7, 2),
        Some(Relationship::Ancestral {
            ancestor_key: 2,
            descendent_key: 7
        })
    );
}

// Rebasing.

#[test]
fn test_rebase_with_empty_tree() {
    let mut declarative_tree = DeclarativeTree::<_, char>::from_declarative_node(None);

    assert!(!declarative_tree.rebase(1, 0));
    assert!(!declarative_tree.rebase(0, 1));
    assert!(!declarative_tree.rebase(1, 1));
    assert!(!declarative_tree.rebase(0, 0));

    let actual_declarative_node = declarative_tree.into_declarative_node();
    let expected_declarative_node = None;

    assert_eq!(actual_declarative_node, expected_declarative_node);
}

#[test]
fn test_rebase_onto_self() {
    let mut declarative_tree = DeclarativeTree::from_declarative_node(Some(&node(0, 'a', vec![])));

    assert!(!declarative_tree.rebase(0, 0));
    assert!(!declarative_tree.rebase(1, 1));

    let actual_declarative_node = declarative_tree.into_declarative_node();
    let expected_declarative_node = Some(node(0, 'a', vec![]));

    assert_eq!(actual_declarative_node, expected_declarative_node);
}

#[test]
fn test_rebase_onto_sibling() {
    let mut declarative_tree = DeclarativeTree::from_declarative_node(Some(&node(
        0,
        'a',
        vec![
            node(1, 'b', vec![node(3, 'd', vec![node(6, 'g', vec![])])]),
            node(2, 'c', vec![node(4, 'e', vec![]), node(5, 'f', vec![])]),
        ],
    )));

    assert!(declarative_tree.rebase(3, 5));

    let actual_declarative_node = declarative_tree.into_declarative_node();
    let expected_declarative_node = Some(node(
        0,
        'a',
        vec![
            node(1, 'b', vec![]),
            node(
                2,
                'c',
                vec![
                    node(4, 'e', vec![]),
                    node(5, 'f', vec![node(3, 'd', vec![node(6, 'g', vec![])])]),
                ],
            ),
        ],
    ));

    assert_eq!(actual_declarative_node, expected_declarative_node);
}

fn rebase_fixture() -> DeclarativeNode<i32, char> {
    node(
        0,
        'a',
        vec![
            node(1, 'b', vec![node(3, 'd', vec![])]),
            node(
                2,
                'c',
                vec![
                    node(
                        4,
                        'e',
                        vec![node(6, 'g', vec![node(7, 'h', vec![]), node(8, 'i', vec![])])],
                    ),
                    node(5, 'f', vec![]),
                ],
            ),
        ],
    )
}

#[test]
fn test_rebase_onto_ancestor() {
    let mut declarative_tree = DeclarativeTree::from_declarative_node(Some(&rebase_fixture()));

    assert!(declarative_tree.rebase(6, 2));

    let actual_declarative_node = declarative_tree.into_declarative_node();
    let expected_declarative_node = Some(node(
        0,
        'a',
        vec![
            node(1, 'b', vec![node(3, 'd', vec![])]),
            node(
                2,
                'c',
                vec![
                    node(4, 'e', vec![]),
                    node(5, 'f', vec![]),
                    node(6, 'g', vec![node(7, 'h', vec![]), node(8, 'i', vec![])]),
                ],
            ),
        ],
    ));

    assert_eq!(actual_declarative_node, expected_declarative_node);
}

#[test]
fn test_rebase_onto_descendent() {
    let mut declarative_tree = DeclarativeTree::from_declarative_node(Some(&rebase_fixture()));

    assert!(declarative_tree.rebase(2, 6));

    let actual_declarative_node = declarative_tree.into_declarative_node();
    let expected_declarative_node = Some(node(
        0,
        'a',
        vec![
            node(1, 'b', vec![node(3, 'd', vec![])]),
            node(
                6,
                'g',
                vec![
                    node(7, 'h', vec![]),
                    node(8, 'i', vec![]),
                    node(2, 'c', vec![node(4, 'e', vec![]), node(5, 'f', vec![])]),
                ],
            ),
        ],
    ));

    assert_eq!(actual_declarative_node, expected_declarative_node);
}
