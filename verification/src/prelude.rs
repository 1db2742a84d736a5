//! The trees and the traits they share, for one `use`.

pub use crate::avltree::AVLTree;
pub use crate::key::TreeKey;
pub use crate::rbtree::{NodeColor, RedBlackTree};
pub use crate::tree::{Direction, SimpleTreeTrait, TreeNode, TreeNodeTrait, TreeTrait};
