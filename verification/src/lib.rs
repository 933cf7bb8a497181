//! An arbitrary-arity tree with stable handles to its nodes.
//!
//! A [`Tree`] keeps its nodes in an arena. Every node is reached by the handle
//! that it got when it was put in, and a handle stops being valid when its
//! node leaves the tree. The tree can be asked how two nodes stand to each
//! other, and it can be changed: nodes are inserted, removed with all their
//! descendants, moved with their subtrees, and the children of a node are
//! reordered.
//!
//! What each operation does is stated over a mathematical model of the tree,
//! in [`model`]. The operations are proved against it in [`tree`], and what
//! follows for every tree is proved in [`laws`]. The two outside collections
//! that the tree is built on are described in [`handles`] and
//! [`ordered_set`].

pub mod handles;
pub mod laws;
pub mod lemmas;
pub mod model;
pub mod ordered_set;
pub mod tree;
pub mod tree_builder;

pub use crate::model::Relationship;
pub use crate::tree::{Node, NodeMut, Tree};
pub use crate::tree_builder::TreeBuilder;
