//! A compressed prefix tree (radix trie) from string keys to values.
//!
//! Keys are stored along the edges of the tree: every node carries a fragment
//! of text, and the fragments met on the way from the root to a node spell the
//! key that ends at that node. Sibling fragments never start with the same
//! character, so a lookup follows at most one path.

pub mod prefix;
pub mod node;
pub mod shape;
pub mod lemmas;
pub mod insert;
pub mod laws;

pub use node::{new_trie, Node};
