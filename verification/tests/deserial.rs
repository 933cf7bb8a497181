use std::collections::HashMap;

use indexmap::IndexSet;
use slotmap::{DefaultKey, Key};
use tinytree::{Relationship, Tree};

type Value = usize;

/// A handle that no tree ever grants: the 64-bit form of the slot map's null key.
fn null_key() -> u64 {
    DefaultKey::default().data().as_ffi()
}

#[derive(Debug, PartialEq, Eq)]
struct DeserialNode(Value, Vec<Self>);

fn leaf(value: Value) -> DeserialNode {
    DeserialNode(value, vec![])
}

fn node(value: Value, children: Vec<DeserialNode>) -> DeserialNode {
    DeserialNode(value, children)
}

fn insert_all(
    tree: &mut Tree<Value>,
    key_map: &mut HashMap<Value, u64>,
    deserial_node: &DeserialNode,
    parent_key: Option<u64>,
) {
    let key = match parent_key {
        Some(parent_key) => tree.insert(deserial_node.0, parent_key).unwrap(),
        None => tree.insert_root(deserial_node.0),
    };
    let previous_key = key_map.insert(deserial_node.0, key);
    assert!(previous_key.is_none());
    for child in deserial_node.1.iter() {
        insert_all(tree, key_map, child, Some(key));
    }
}

fn make_tree_and_key_map(
    deserial_node: Option<&DeserialNode>,
) -> (Tree<Value>, HashMap<Value, u64>) {
    let mut tree = Tree::default();
    let mut key_map = HashMap::default();
    if let Some(deserial_node) = deserial_node {
        insert_all(&mut tree, &mut key_map, deserial_node, None);
    };
    (tree, key_map)
}

fn make_node(tree: &Tree<Value>, key: u64, parent_key: Option<u64>) -> DeserialNode {
    let node = tree.get(key).unwrap();
    assert_eq!(node.parent_key, parent_key);
    let value = *node.value;
    let children = node
        .child_keys
        .iter()
        .map(|&child_key| make_node(tree, child_key, Some(key)))
        .collect();
    DeserialNode(value, children)
}

fn make_deserial_node(tree: &Tree<Value>) -> Option<DeserialNode> {
    tree.root_key()
        .map(|root_key| make_node(tree, root_key, None))
}

fn make_reverse_key_map(key_map: &HashMap<Value, u64>) -> HashMap<u64, Value> {
    let length = key_map.len();
    let mut reverse_map = HashMap::with_capacity(length);
    for (&value, &key) in key_map.iter() {
        let previous_value = reverse_map.insert(key, value);
        assert!(previous_value.is_none());
    }
    reverse_map
}

fn key_of(key_map: &HashMap<Value, u64>, value: Value) -> u64 {
    key_map.get(&value).copied().unwrap_or_else(null_key)
}

#[test]
fn test_insert() {
    let tests = [
        ((None, 0, 1), (None, false)),
        ((Some(leaf(0)), 2, 1), (Some(leaf(0)), false)),
        ((Some(leaf(0)), 0, 1), (Some(node(0, vec![leaf(1)])), true)),
        (
            (
                Some(node(
                    0,
                    vec![
                        leaf(1),
                        node(2, vec![node(4, vec![leaf(5)])]),
                        leaf(3),
                    ],
                )),
                2,
                6,
            ),
            (
                Some(node(
                    0,
                    vec![
                        leaf(1),
                        node(2, vec![node(4, vec![leaf(5)]), leaf(6)]),
                        leaf(3),
                    ],
                )),
                true,
            ),
        ),
    ];

    for (
        (deserial_node, parent_key, value_to_insert),
        (expected_deserial_node, expected_did_insert),
    ) in tests
    {
        let (mut tree, mut key_map) = make_tree_and_key_map(deserial_node.as_ref());

        let parent_key = key_of(&key_map, parent_key);
        let key = tree.insert(value_to_insert, parent_key);

        if let Some(key) = key {
            key_map.insert(value_to_insert, key);
        };

        let actual_deserial_node = make_deserial_node(&tree);
        let actual_did_insert = key.is_some();

        assert_eq!(actual_deserial_node, expected_deserial_node);
        assert_eq!(actual_did_insert, expected_did_insert);
    }
}

#[test]
fn test_insert_root() {
    let tests = [
        ((None, 0), Some(leaf(0))),
        ((Some(leaf(1)), 0), Some(leaf(0))),
        (
            (
                Some(node(1, vec![node(2, vec![leaf(4)]), leaf(3)])),
                0,
            ),
            Some(leaf(0)),
        ),
    ];

    for ((deserial_node, value_to_insert), expected_deserial_node) in tests {
        let (mut tree, _) = make_tree_and_key_map(deserial_node.as_ref());

        let _ = tree.insert_root(value_to_insert);

        let actual_deserial_node = make_deserial_node(&tree);
        assert_eq!(actual_deserial_node, expected_deserial_node);
    }
}

#[test]
fn test_reorder_children() {
    let tests = [
        // Reordering children on an empty tree.
        ((None, 0, vec![1, 2, 3]), (None, false)),
        // Reordering children with a parent key that does not exist.
        ((Some(leaf(0)), 8, vec![1, 2, 3]), (Some(leaf(0)), false)),
        // Reordering children on a node with no children.
        ((Some(leaf(0)), 0, vec![1, 2, 3]), (Some(leaf(0)), false)),
        // Reordering children on a node with keys that are not its own children.
        (
            (
                Some(node(
                    0,
                    vec![node(1, vec![leaf(2), leaf(3), leaf(4)]), leaf(5)],
                )),
                5,
                vec![2, 3, 4],
            ),
            (
                Some(node(
                    0,
                    vec![node(1, vec![leaf(2), leaf(3), leaf(4)]), leaf(5)],
                )),
                false,
            ),
        ),
        // Reordering children.
        (
            (
                Some(node(
                    0,
                    vec![
                        node(1, vec![node(2, vec![leaf(6)]), leaf(3), leaf(4)]),
                        leaf(5),
                    ],
                )),
                1,
                vec![3, 2, 4],
            ),
            (
                Some(node(
                    0,
                    vec![
                        node(1, vec![leaf(3), node(2, vec![leaf(6)]), leaf(4)]),
                        leaf(5),
                    ],
                )),
                true,
            ),
        ),
        // Reordering children and removing a key.
        (
            (
                Some(node(
                    0,
                    vec![
                        node(1, vec![node(2, vec![leaf(6)]), leaf(3), leaf(4)]),
                        leaf(5),
                    ],
                )),
                1,
                vec![4, 3],
            ),
            (
                Some(node(0, vec![node(1, vec![leaf(4), leaf(3)]), leaf(5)])),
                true,
            ),
        ),
        // Reordering children and removing a key, next to a subtree that stays.
        (
            (
                Some(node(
                    0,
                    vec![
                        node(
                            1,
                            vec![node(2, vec![leaf(6)]), node(3, vec![leaf(7)]), leaf(4)],
                        ),
                        leaf(5),
                    ],
                )),
                1,
                vec![4, 3],
            ),
            (
                Some(node(
                    0,
                    vec![node(1, vec![leaf(4), node(3, vec![leaf(7)])]), leaf(5)],
                )),
                true,
            ),
        ),
    ];

    for (
        (deserial_node, key, reordered_child_keys),
        (expected_deserial_node, expected_did_reorder),
    ) in tests
    {
        let (mut tree, key_map) = make_tree_and_key_map(deserial_node.as_ref());

        let key = key_of(&key_map, key);
        let actual_did_reorder = tree.reorder_children(key, |_| {
            reordered_child_keys
                .into_iter()
                .map(|child_key| key_of(&key_map, child_key))
                .collect::<IndexSet<u64>>()
        });
        let actual_deserial_node = make_deserial_node(&tree);

        assert_eq!(actual_deserial_node, expected_deserial_node);
        assert_eq!(actual_did_reorder, expected_did_reorder);
    }
}

#[test]
fn test_get_relationship() {
    let tests = [
        ((None, 0, 1), None),
        ((Some(leaf(0)), 1, 2), None),
        (
            (Some(node(0, vec![leaf(1)])), 0, 1),
            Some(Relationship::Ancestral {
                ancestor_key: 0,
                descendent_key: 1,
            }),
        ),
        (
            (Some(node(0, vec![leaf(1)])), 0, 0),
            Some(Relationship::Same),
        ),
        (
            (Some(node(0, vec![leaf(1)])), 1, 0),
            Some(Relationship::Ancestral {
                ancestor_key: 0,
                descendent_key: 1,
            }),
        ),
        (
            (Some(node(0, vec![leaf(1), leaf(4)])), 1, 4),
            Some(Relationship::Siblings {
                common_ancestor_key: 0,
            }),
        ),
        (
            (Some(node(0, vec![leaf(1), leaf(4)])), 4, 1),
            Some(Relationship::Siblings {
                common_ancestor_key: 0,
            }),
        ),
    ];

    for ((decl_tree, key_1, key_2), expected_relationship) in tests {
        let (tree, key_map) = make_tree_and_key_map(decl_tree.as_ref());

        let key_1 = key_of(&key_map, key_1);
        let key_2 = key_of(&key_map, key_2);

        let reverse_map = make_reverse_key_map(&key_map);

        let actual_relationship = tree.get_relationship(key_1, key_2);
        let actual_relationship =
            actual_relationship.map(|actual_relationship| match actual_relationship {
                Relationship::Same => Relationship::Same,
                Relationship::Siblings {
                    common_ancestor_key,
                } => {
                    let common_ancestor_key = *reverse_map.get(&common_ancestor_key).unwrap();
                    Relationship::Siblings {
                        common_ancestor_key,
                    }
                }
                Relationship::Ancestral {
                    ancestor_key,
                    descendent_key,
                } => {
                    let ancestor_key = *reverse_map.get(&ancestor_key).unwrap();
                    let descendent_key = *reverse_map.get(&descendent_key).unwrap();
                    Relationship::Ancestral {
                        ancestor_key,
                        descendent_key,
                    }
                }
            });

        assert_eq!(actual_relationship, expected_relationship);
    }
}

#[test]
fn test_rebase() {
    let tests = [
        ((None, 0, 1), (None, false)),
        ((Some(leaf(0)), 0, 1), (Some(leaf(0)), false)),
        ((Some(leaf(0)), 1, 0), (Some(leaf(0)), false)),
        ((Some(leaf(0)), 8, 0), (Some(leaf(0)), false)),
        // A node rebased onto itself stays where it is, and nothing is done.
        ((Some(leaf(0)), 0, 0), (Some(leaf(0)), false)),
        (
            (Some(node(0, vec![leaf(1), leaf(2)])), 1, 2),
            (Some(node(0, vec![node(2, vec![leaf(1)])])), true),
        ),
        (
            (Some(node(0, vec![leaf(1), leaf(2)])), 0, 1),
            (Some(node(1, vec![node(0, vec![leaf(2)])])), true),
        ),
        (
            (Some(node(0, vec![node(1, vec![leaf(2)])])), 0, 2),
            (Some(node(2, vec![node(0, vec![leaf(1)])])), true),
        ),
        (
            (
                Some(node(
                    0,
                    vec![
                        leaf(10),
                        leaf(11),
                        node(12, vec![leaf(20), leaf(21)]),
                        leaf(13),
                    ],
                )),
                0,
                21,
            ),
            (
                Some(node(
                    21,
                    vec![node(
                        0,
                        vec![leaf(10), leaf(11), node(12, vec![leaf(20)]), leaf(13)],
                    )],
                )),
                true,
            ),
        ),
        (
            (
                Some(node(
                    0,
                    vec![
                        leaf(10),
                        leaf(11),
                        node(12, vec![leaf(20), leaf(21)]),
                        leaf(13),
                    ],
                )),
                12,
                21,
            ),
            (
                Some(node(
                    0,
                    vec![
                        leaf(10),
                        leaf(11),
                        leaf(13),
                        node(21, vec![node(12, vec![leaf(20)])]),
                    ],
                )),
                true,
            ),
        ),
    ];

    for ((decl_tree, key, new_parent_key), (expected_decl_tree, expected_did_rebase)) in tests {
        let (mut tree, key_map) = make_tree_and_key_map(decl_tree.as_ref());
        let before_length = tree.len();

        let key = key_of(&key_map, key);
        let new_parent_key = key_of(&key_map, new_parent_key);

        let actual_did_rebase = tree.rebase(key, new_parent_key, None);
        let actual_decl_tree = make_deserial_node(&tree);
        let after_length = tree.len();

        assert_eq!(actual_did_rebase, expected_did_rebase);
        assert_eq!(actual_decl_tree, expected_decl_tree);
        assert_eq!(before_length, after_length);
    }
}
