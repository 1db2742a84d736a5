//! Self-balancing binary search trees: an AVL tree and a red-black tree over
//! one shared node type, each with verified insertion, deletion, search and
//! traversal.

pub mod key;
pub mod order;
pub mod tree;
pub mod avltree;
pub mod rbtree;
pub mod laws;
pub mod prelude;
