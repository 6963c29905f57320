//! A mutable multi-child tree whose nodes live in an arena.
//!
//! Ownership flows from parent to child only: a `Node` is an owning handle
//! that counts towards its node's strong count, and a `WeakNode` is a
//! non-owning back-reference that must be upgraded before use. A node is
//! deallocated when its last owning handle is released, and its children
//! list goes with it, so back-references never keep a node alive.
pub mod laws;
pub mod model;
mod tree;

pub use model::NodeState;
pub use tree::{Arena, Node, WeakNode};
