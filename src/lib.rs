//! Self-balancing ordered-key indexes: an AVL tree and a red-black tree over a
//! shared binary-search-tree substrate, with proofs of their invariants.

pub mod avl_tree;
pub mod bs_tree;
pub mod key_list;
pub mod laws;
pub mod rb_tree;

pub use avl_tree::AVLTree;
pub use bs_tree::{BinarySearchTree, Node, NodeColor, NodeEntry, Side};
pub use key_list::parse_keys;
pub use rb_tree::RedBlackTree;
