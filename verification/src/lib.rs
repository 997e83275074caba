//! An unbalanced binary search tree over `i32` keys.
//!
//! A node owns its two subtrees. A node is referred to from outside by a
//! [`NodePath`]: the turns that lead to it from the root. The parent of a node
//! is the path without its last turn, and the root is the empty path.
pub mod model;
pub mod path;
pub mod node;
pub mod laws;

pub use crate::model::BstNode;
pub use crate::model::BstNodeLink;
pub use crate::path::NodePath;
