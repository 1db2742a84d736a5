use binary_trees::avltree;
use binary_trees::avltree::AVLTree;
use binary_trees::order::is_strictly_increasing;
use binary_trees::rbtree;
use binary_trees::rbtree::NodeColor::{Black, Red};
use binary_trees::rbtree::{NodeColor, RedBlackTree};
use binary_trees::tree::{rotate, search_insert_point, search_node, Direction, Link, TreeNode, TreeNodeTrait};

fn avl(value: i32, tag: u32, left: Link<i32, u32>, right: Link<i32, u32>) -> Box<TreeNode<i32, u32>> {
    Box::new(TreeNode { value, tag, left, right })
}

fn leaf(value: i32) -> Link<i32, u32> {
    Some(avl(value, 1, None, None))
}

fn rb(value: i32, tag: NodeColor, left: Link<i32, NodeColor>, right: Link<i32, NodeColor>) -> Box<
    TreeNode<i32, NodeColor>,
> {
    Box::new(TreeNode { value, tag, left, right })
}

fn keys<A>(link: &Link<i32, A>) -> Vec<i32> {
    let mut v = Vec::new();
    if let Some(n) = link {
        n.inorder(&mut v);
    }
    v
}

fn shape<A>(link: &Link<i32, A>) -> String {
    match link {
        None => String::from("."),
        Some(n) => format!("({} {} {})", shape(&n.left), n.value, shape(&n.right)),
    }
}

#[test]
fn direction_opposite_and_is_left() {
    assert_eq!(Direction::Left.opposite(), Direction::Right);
    assert_eq!(Direction::Right.opposite(), Direction::Left);
    assert!(Direction::Left.is_left());
    assert!(!Direction::Right.is_left());
}

#[test]
fn rotate_promotes_the_child() {
    // (a 2 b) 4 c  -> a 2 (b 4 c)
    let two = avl(2, 2, leaf(1), leaf(3));
    let four = avl(4, 3, Some(two), leaf(5));
    let top = rotate(four, Direction::Left);
    assert_eq!(top.value, 2);
    assert_eq!(shape(&Some(top)), "((. 1 .) 2 ((. 3 .) 4 (. 5 .)))");
    // and back
    let two = avl(2, 3, leaf(1), Some(avl(4, 2, leaf(3), leaf(5))));
    let top = rotate(two, Direction::Right);
    assert_eq!(top.value, 4);
    assert_eq!(top.tag, 2);
    assert_eq!(shape(&Some(top)), "(((. 1 .) 2 (. 3 .)) 4 (. 5 .))");
}

#[test]
fn node_accessors_and_measures() {
    let mut node = TreeNode::new(4, 1u32);
    assert!(node.is_leaf());
    assert_eq!(node.get_min(), 4);
    node.set_left(leaf(2));
    node.set_child(Direction::Right, Some(avl(6, 2, leaf(5), None)));
    assert!(!node.is_leaf());
    assert_eq!(node.left().as_ref().unwrap().value, 2);
    assert_eq!(node.right().as_ref().unwrap().value, 6);
    assert_eq!(node.child(Direction::Left).as_ref().unwrap().value, 2);
    assert_eq!(node.get_min(), 2);
    assert_eq!(node.get_height(), 3);
    assert_eq!(node.count_leaves(), 2);
    let mut out = vec![0];
    node.inorder(&mut out);
    assert_eq!(out, vec![0, 2, 4, 5, 6]);
    let taken = node.take_child(Direction::Right);
    assert_eq!(taken.unwrap().value, 6);
    assert!(node.right().is_none());
    node.set_right(leaf(9));
    assert_eq!(node.get_height(), 2);
    assert_eq!(node.value(), 4);
    node.set_value(3);
    assert_eq!(node.value(), 3);
    assert_eq!(node.value, 3);
}

#[test]
fn child_helpers_for_deletion() {
    let only_left = avl(4, 2, leaf(2), None);
    let (c, d) = only_left.get_child_delete_helper();
    assert_eq!(c.unwrap().value, 2);
    assert_eq!(d, Direction::Left);
    assert_eq!(TreeNode::delete_node(only_left).unwrap().value, 2);

    let only_right = avl(4, 2, None, leaf(6));
    let (c, d) = only_right.get_child_delete_helper();
    assert_eq!(c.unwrap().value, 6);
    assert_eq!(d, Direction::Right);
    assert_eq!(TreeNode::delete_node(only_right).unwrap().value, 6);

    let alone = avl(4, 1, None, None);
    let (c, d) = alone.get_child_delete_helper();
    assert!(c.is_none());
    assert_eq!(d, Direction::Left);
    assert!(TreeNode::delete_node(alone).is_none());
}

#[test]
fn direction_to_parent_and_sibling() {
    let parent = avl(4, 2, leaf(2), leaf(6));
    let left = parent.left.as_ref().unwrap();
    let right = parent.right.as_ref().unwrap();
    assert_eq!(left.get_direction_to_parent(&parent), Direction::Left);
    assert_eq!(right.get_direction_to_parent(&parent), Direction::Right);
    assert_eq!(left.get_sibling(Some(&parent)).unwrap().value, 6);
    assert_eq!(right.get_sibling(Some(&parent)).unwrap().value, 2);
    assert!(left.get_sibling(None).is_none());
    let lonely = avl(4, 2, leaf(2), None);
    assert!(lonely.left.as_ref().unwrap().get_sibling(Some(&lonely)).is_none());
}

#[test]
fn search_node_and_insert_point() {
    let root: Link<i32, u32> = Some(avl(8, 3, Some(avl(4, 2, leaf(2), None)), leaf(12)));
    assert_eq!(search_node(&root, 4).unwrap().value, 4);
    assert_eq!(search_node(&root, 2).unwrap().value, 2);
    assert_eq!(search_node(&root, 8).unwrap().value, 8);
    assert!(search_node(&root, 5).is_none());
    assert!(search_node(&None::<Box<TreeNode<i32, u32>>>, 5).is_none());
    assert_eq!(search_insert_point(&root, 5).unwrap().value, 4);
    assert_eq!(search_insert_point(&root, 1).unwrap().value, 2);
    assert_eq!(search_insert_point(&root, 3).unwrap().value, 2);
    assert_eq!(search_insert_point(&root, 10).unwrap().value, 12);
    assert_eq!(search_insert_point(&root, 20).unwrap().value, 12);
    assert!(search_insert_point(&root, 12).is_none());
    assert!(search_insert_point(&None::<Box<TreeNode<i32, u32>>>, 5).is_none());
}

#[test]
fn strictly_increasing_check() {
    assert!(is_strictly_increasing(&Vec::<i32>::new()));
    assert!(is_strictly_increasing(&vec![7]));
    assert!(is_strictly_increasing(&vec![1, 2, 5, 9]));
    assert!(!is_strictly_increasing(&vec![1, 2, 2, 9]));
    assert!(!is_strictly_increasing(&vec![1, 3, 2]));
    assert!(!is_strictly_increasing(&vec![2, 1]));
}

#[test]
fn avl_node_heights() {
    let root = TreeNode::new_root(3);
    let node = root.unwrap();
    assert_eq!(node.height(), 1);
    assert_eq!(node.tag, 1);
    let mut node = avl(4, 1, Some(avl(2, 2, leaf(1), None)), None);
    assert_eq!(node.get_children_height(), (2, 0));
    assert!(!node.is_balanced());
    node.update_height();
    assert_eq!(node.height(), 3);
    node.right = leaf(6);
    assert!(node.is_balanced());
    assert!(node.check_balance_recurse());
    node.tag = 7;
    assert!(!node.check_balance_recurse());
}

#[test]
fn avl_single_and_double_rotations() {
    // too high on the right, leaning outward
    let node = avl(1, 3, None, Some(avl(2, 2, None, leaf(3))));
    let top = avltree::left_left_rotate(node);
    assert_eq!(shape(&Some(top)), "((. 1 .) 2 (. 3 .))");
    let node = avl(1, 3, None, Some(avl(2, 2, None, leaf(3))));
    let top = avltree::left_rotate(node);
    assert_eq!((top.value, top.tag, top.left.as_ref().unwrap().tag), (2, 2, 3));
    // too high on the left, leaning outward
    let node = avl(3, 3, Some(avl(2, 2, leaf(1), None)), None);
    let top = avltree::right_right_rotate(node);
    assert_eq!((top.value, top.tag, top.right.as_ref().unwrap().tag), (2, 2, 1));
    let node = avl(3, 3, Some(avl(2, 2, leaf(1), None)), None);
    assert_eq!(avltree::right_rotate(node).value, 2);
    // too high on the right, leaning inward
    let node = avl(1, 3, None, Some(avl(3, 2, leaf(2), None)));
    let top = avltree::left_right_rotate(node);
    assert_eq!(shape(&Some(top)), "((. 1 .) 2 (. 3 .))");
    // too high on the left, leaning inward
    let node = avl(3, 3, Some(avl(1, 2, None, leaf(2))), None);
    let top = avltree::right_left_rotate(node);
    assert_eq!((top.value, top.tag), (2, 2));
    assert_eq!(top.left.as_ref().unwrap().tag, 1);
    assert_eq!(top.right.as_ref().unwrap().tag, 1);
}

#[test]
fn avl_rebalance_picks_the_rotation() {
    let top = avltree::rebalance_helper(avl(1, 0, None, Some(avl(2, 2, None, leaf(3)))));
    assert_eq!(shape(&Some(top)), "((. 1 .) 2 (. 3 .))");
    let top = avltree::rebalance_helper(avl(1, 0, None, Some(avl(3, 2, leaf(2), None))));
    assert_eq!(shape(&Some(top)), "((. 1 .) 2 (. 3 .))");
    let top = avltree::rebalance_helper(avl(3, 0, Some(avl(2, 2, leaf(1), None)), None));
    assert_eq!(shape(&Some(top)), "((. 1 .) 2 (. 3 .))");
    let top = avltree::rebalance_helper(avl(3, 0, Some(avl(1, 2, None, leaf(2))), None));
    assert_eq!(shape(&Some(top)), "((. 1 .) 2 (. 3 .))");
    // nothing to rotate: only the height is set anew
    let top = avltree::rebalance_helper(avl(2, 0, leaf(1), None));
    assert_eq!((top.value, top.tag), (2, 2));
    // after a deletion the higher subtree may lean neither way
    let heavy = avl(4, 3, leaf(3), leaf(5));
    let top = avltree::rebalance_helper(avl(2, 0, None, Some(heavy)));
    assert_eq!(top.tag, 3);
    assert!(top.check_balance_recurse());
    assert_eq!(shape(&Some(top)), "((. 2 (. 3 .)) 4 (. 5 .))");
}

#[test]
fn avl_insert_and_delete_of_nodes() {
    let top = avltree::insert_node(None, 5);
    assert_eq!((top.value, top.tag), (5, 1));
    let top = avltree::insert_node(Some(top), 3);
    let top = avltree::insert_node(Some(top), 1);
    assert_eq!(shape(&Some(top)), "((. 1 .) 3 (. 5 .))");
    let top = avltree::insert_node(Some(avl(3, 2, leaf(1), leaf(5))), 4);
    let (rest, deleted) = avltree::delete_node(Some(top), 3);
    assert_eq!(deleted, Some(3));
    assert_eq!(shape(&rest), "((. 1 .) 4 (. 5 .))");
    let (rest, deleted) = avltree::delete_node(rest, 9);
    assert_eq!(deleted, None);
    assert_eq!(keys(&rest), vec![1, 4, 5]);
    let rest = avltree::delete_top(rest.unwrap());
    assert_eq!(shape(&rest), "((. 1 .) 5 .)");
    let (rest, deleted) = avltree::delete_node(None::<Box<TreeNode<i32, u32>>>, 9);
    assert!(rest.is_none() && deleted.is_none());
}

#[test]
fn avl_check_valid_finds_faults() {
    let good: AVLTree<i32> = AVLTree { root: Some(avl(2, 2, leaf(1), leaf(3))) };
    assert!(good.check_valid());
    assert!(good.check_invariants());
    let unordered: AVLTree<i32> = AVLTree { root: Some(avl(2, 2, leaf(3), leaf(1))) };
    assert!(!unordered.check_valid());
    assert!(!unordered.check_invariants());
    let twice: AVLTree<i32> = AVLTree { root: Some(avl(2, 2, leaf(2), None)) };
    assert!(!twice.check_valid());
    let chain = avl(1, 3, None, Some(avl(2, 2, None, leaf(3))));
    let unbalanced: AVLTree<i32> = AVLTree { root: Some(chain) };
    assert!(!unbalanced.check_valid());
    assert!(!unbalanced.check_invariants());
    // unbalanced below the top, whatever the nodes have cached
    let low_chain = avl(5, 1, None, Some(avl(6, 1, None, Some(avl(7, 1, None, None)))));
    let deep: AVLTree<i32> = AVLTree { root: Some(avl(4, 2, Some(avl(2, 1, leaf(1), leaf(3))), Some(low_chain))) };
    assert!(!deep.check_valid());
}

#[test]
fn avl_check_valid_looks_at_order_and_balance_only() {
    // a single node that caches a wrong height
    let lone: AVLTree<i32> = AVLTree { root: Some(avl(5, 7, None, None)) };
    assert!(lone.check_valid());
    assert!(!lone.check_invariants());
    let wrong_height: AVLTree<i32> = AVLTree { root: Some(avl(2, 3, leaf(1), leaf(3))) };
    assert!(wrong_height.check_valid());
    assert!(!wrong_height.check_invariants());
    let right = avl(8, 2, None, Some(avl(9, 4, None, None)));
    let wrong_below = avl(5, 3, Some(avl(3, 2, leaf(1), None)), Some(right));
    let tree = AVLTree { root: Some(wrong_below) };
    assert!(tree.check_valid());
    assert!(!tree.check_invariants());
    let empty: AVLTree<i32> = AVLTree::new();
    assert!(empty.check_valid() && empty.check_invariants());
}

#[test]
fn balanced_height_counts_anew() {
    assert_eq!(avl(5, 7, None, None).balanced_height(), Some(1));
    assert_eq!(avl(2, 0, leaf(1), Some(avl(4, 0, leaf(3), None))).balanced_height(), Some(3));
    assert_eq!(avl(1, 3, None, Some(avl(2, 2, None, leaf(3)))).balanced_height(), None);
    let low_chain = avl(5, 1, None, Some(avl(6, 1, None, Some(avl(7, 1, None, None)))));
    assert_eq!(avl(4, 2, Some(avl(2, 1, leaf(1), leaf(3))), Some(low_chain)).balanced_height(), None);
    assert_eq!(rb(2, Black, Some(rb(1, Red, None, None)), None).balanced_height(), Some(2));
}

#[test]
fn red_black_node_colors() {
    let node = TreeNode::new_red(3);
    assert_eq!(node.tag, Red);
    assert!(node.is_leaf());
    let link = Some(Box::new(node));
    assert!(TreeNode::is_red(&link));
    assert!(!TreeNode::is_red(&None::<Box<TreeNode<i32, NodeColor>>>));
    let black = TreeNode::set_black(link.unwrap());
    assert_eq!(black.tag, Black);
    assert!(!TreeNode::is_red(&Some(black)));
    let red = TreeNode::set_red(rb(1, Black, None, None));
    assert_eq!(red.tag, Red);
}

#[test]
fn red_black_checks() {
    let good = rb(2, Black, Some(rb(1, Red, None, None)), Some(rb(3, Red, None, None)));
    assert!(good.check_red_children());
    assert_eq!(good.check_color(), Some(2));
    assert_eq!(TreeNode::calculate_black_height(&Some(good)), Some(2));
    assert_eq!(TreeNode::calculate_black_height(&None::<Box<TreeNode<i32, NodeColor>>>), Some(1));
    let red_red = rb(3, Black, Some(rb(2, Red, Some(rb(1, Red, None, None)), None)), None);
    assert!(!red_red.check_red_children());
    assert_eq!(red_red.check_color(), Some(2));
    let uneven = rb(2, Black, Some(rb(1, Black, None, None)), None);
    assert!(uneven.check_red_children());
    assert_eq!(uneven.check_color(), None);
    assert!(!RedBlackTree::is_valid_red_black_tree(&Some(uneven)));
    let left = rb(2, Black, Some(rb(1, Black, None, None)), None);
    let deep_uneven = rb(4, Black, Some(left), Some(rb(5, Black, None, None)));
    assert_eq!(deep_uneven.check_color(), None);
    let three_black = rb(2, Black, Some(rb(1, Black, None, None)), Some(rb(3, Black, None, None)));
    assert_eq!(three_black.check_color(), Some(3));
    assert_eq!(three_black.black_levels(), Some(2));
    assert_eq!(rb(1, Red, None, None).black_levels(), Some(0));
    assert_eq!(rb(2, Black, Some(rb(1, Black, None, None)), None).black_levels(), None);
}

#[test]
fn red_black_check_valid_finds_faults() {
    let red_top = RedBlackTree { root: Some(rb(2, Red, None, None)) };
    assert!(!red_top.check_valid());
    assert!(red_top.check_color());
    let red_red = RedBlackTree { root: Some(rb(3, Black, Some(rb(2, Red, Some(rb(1, Red, None, None)), None)), None)) };
    assert!(!red_red.check_valid());
    let uneven = RedBlackTree { root: Some(rb(2, Black, Some(rb(1, Black, None, None)), None)) };
    assert!(!uneven.check_valid());
    assert!(!uneven.check_color());
    let unordered = RedBlackTree { root: Some(rb(2, Black, Some(rb(3, Red, None, None)), None)) };
    assert!(!unordered.check_valid());
    let good = RedBlackTree { root: Some(rb(2, Black, Some(rb(1, Red, None, None)), None)) };
    assert!(good.check_valid());
    assert!(good.check_invariants());
    assert!(!uneven.check_invariants());
    assert!(!red_top.check_invariants());
    let empty: RedBlackTree<i32> = RedBlackTree::new();
    assert!(empty.check_valid() && empty.check_invariants());
}

#[test]
fn insert_recolor_with_red_uncle() {
    let parent = rb(2, Red, Some(rb(1, Red, None, None)), None);
    let grand = rb(3, Black, Some(parent), Some(rb(4, Red, None, None)));
    let top = rbtree::insert_recolor(grand, Direction::Left);
    assert_eq!((top.value, top.tag), (3, Red));
    assert_eq!(top.left.as_ref().unwrap().tag, Black);
    assert_eq!(top.right.as_ref().unwrap().tag, Black);
    assert_eq!(top.left.as_ref().unwrap().left.as_ref().unwrap().tag, Red);
}

#[test]
fn insert_recolor_with_black_uncle() {
    // straight on the left
    let grand = rb(3, Black, Some(rb(2, Red, Some(rb(1, Red, None, None)), None)), None);
    let top = rbtree::insert_recolor(grand, Direction::Left);
    assert_eq!((top.value, top.tag), (2, Black));
    assert_eq!((top.left.as_ref().unwrap().value, top.left.as_ref().unwrap().tag), (1, Red));
    assert_eq!((top.right.as_ref().unwrap().value, top.right.as_ref().unwrap().tag), (3, Red));
    // bent on the left
    let grand = rb(3, Black, Some(rb(1, Red, None, Some(rb(2, Red, None, None)))), None);
    let top = rbtree::insert_recolor(grand, Direction::Left);
    assert_eq!((top.value, top.tag), (2, Black));
    assert_eq!((top.left.as_ref().unwrap().value, top.left.as_ref().unwrap().tag), (1, Red));
    assert_eq!((top.right.as_ref().unwrap().value, top.right.as_ref().unwrap().tag), (3, Red));
    // straight on the right
    let grand = rb(1, Black, None, Some(rb(2, Red, None, Some(rb(3, Red, None, None)))));
    let top = rbtree::insert_recolor(grand, Direction::Right);
    assert_eq!((top.value, top.tag), (2, Black));
    assert_eq!(shape(&Some(top)), "((. 1 .) 2 (. 3 .))");
    // bent on the right
    let grand = rb(1, Black, None, Some(rb(3, Red, Some(rb(2, Red, None, None)), None)));
    let top = rbtree::insert_recolor(grand, Direction::Right);
    assert_eq!((top.value, top.tag), (2, Black));
    assert_eq!(shape(&Some(top)), "((. 1 .) 2 (. 3 .))");
}

#[test]
fn insert_recolor_leaves_sound_trees_alone() {
    let grand = rb(3, Black, Some(rb(2, Red, None, None)), None);
    let top = rbtree::insert_recolor(grand, Direction::Left);
    assert_eq!((top.value, top.tag, top.left.as_ref().unwrap().tag), (3, Black, Red));
    let grand = rb(3, Red, Some(rb(2, Red, None, None)), None);
    let top = rbtree::insert_recolor(grand, Direction::Left);
    assert_eq!((top.value, top.tag, top.left.as_ref().unwrap().tag), (3, Red, Red));
}

#[test]
fn red_black_insert_node_reports_duplicates() {
    let (top, inserted) = rbtree::insert_node(rb(5, Black, None, None), 3);
    assert!(inserted);
    assert_eq!(keys(&Some(top)), vec![3, 5]);
    let (top, inserted) = rbtree::insert_node(rb(5, Black, None, None), 5);
    assert!(!inserted);
    assert_eq!(top.tag, Black);
    assert_eq!(keys(&Some(top)), vec![5]);
}

#[test]
fn red_black_insert_node_hands_back_a_black_top() {
    // black 5 over red 2 and red 8: inserting 1 turns 2 and 8 black and 5 red
    let root = rb(5, Black, Some(rb(2, Red, None, None)), Some(rb(8, Red, None, None)));
    let (top, inserted) = rbtree::insert_below(root, 1);
    assert!(inserted);
    assert_eq!((top.value, top.tag), (5, Red));
    assert_eq!(top.left.as_ref().unwrap().tag, Black);
    assert_eq!(top.right.as_ref().unwrap().tag, Black);
    // the top to store is black
    let root = rb(5, Black, Some(rb(2, Red, None, None)), Some(rb(8, Red, None, None)));
    let (top, inserted) = rbtree::insert_node(root, 1);
    assert!(inserted);
    assert_eq!((top.value, top.tag), (5, Black));
    assert_eq!(top.left.as_ref().unwrap().tag, Black);
    assert_eq!(top.right.as_ref().unwrap().tag, Black);
    assert_eq!(top.left.as_ref().unwrap().left.as_ref().unwrap().tag, Red);
    assert_eq!(keys(&Some(top)), vec![1, 2, 5, 8]);
    let tree = RedBlackTree { root: Some(rbtree::insert_node(rb(5, Red, None, None), 7).0) };
    assert!(tree.check_valid());
}

#[test]
fn delete_rebalance_with_red_sibling() {
    // the left side of 8 has lost its black node
    let sibling = rb(12, Red, Some(rb(10, Black, None, None)), Some(rb(20, Black, None, None)));
    let parent = rb(8, Black, None, Some(sibling));
    let (top, short) = rbtree::delete_rebalance_helper(parent, Direction::Left);
    assert!(!short);
    assert_eq!((top.value, top.tag), (12, Black));
    let low = top.left.as_ref().unwrap();
    assert_eq!((low.value, low.tag), (8, Black));
    assert_eq!(low.right.as_ref().unwrap().tag, Red);
    assert!(RedBlackTree { root: Some(top) }.check_valid());
}

#[test]
fn delete_rebalance_with_black_sibling_and_black_nephews() {
    let parent = rb(8, Black, None, Some(rb(12, Black, None, None)));
    let (top, short) = rbtree::delete_rebalance_helper(parent, Direction::Left);
    assert!(short);
    assert_eq!((top.value, top.tag, top.right.as_ref().unwrap().tag), (8, Black, Red));
    let parent = rb(8, Red, Some(rb(4, Black, None, None)), None);
    let (top, short) = rbtree::delete_rebalance_helper(parent, Direction::Right);
    assert!(!short);
    assert_eq!((top.value, top.tag, top.left.as_ref().unwrap().tag), (8, Black, Red));
}

#[test]
fn delete_rebalance_with_red_nephews() {
    // near nephew red
    let parent = rb(8, Black, None, Some(rb(12, Black, Some(rb(10, Red, None, None)), None)));
    let (top, short) = rbtree::delete_rebalance_helper(parent, Direction::Left);
    assert!(!short);
    assert_eq!((top.value, top.tag), (10, Black));
    assert_eq!((top.left.as_ref().unwrap().value, top.left.as_ref().unwrap().tag), (8, Black));
    assert_eq!((top.right.as_ref().unwrap().value, top.right.as_ref().unwrap().tag), (12, Black));
    // far nephew red, under a red parent
    let parent = rb(8, Red, None, Some(rb(12, Black, None, Some(rb(20, Red, None, None)))));
    let (top, short) = rbtree::delete_rebalance_helper(parent, Direction::Left);
    assert!(!short);
    assert_eq!((top.value, top.tag), (12, Red));
    assert_eq!((top.left.as_ref().unwrap().value, top.left.as_ref().unwrap().tag), (8, Black));
    assert_eq!((top.right.as_ref().unwrap().value, top.right.as_ref().unwrap().tag), (20, Black));
    // both nephews red, on the other side
    let sibling = rb(4, Black, Some(rb(2, Red, None, None)), Some(rb(6, Red, None, None)));
    let parent = rb(8, Black, Some(sibling), None);
    let (top, short) = rbtree::delete_rebalance_helper(parent, Direction::Right);
    assert!(!short);
    assert_eq!(keys(&top.left), vec![2, 4]);
    assert_eq!((top.value, top.tag), (6, Black));
    assert!(RedBlackTree { root: Some(top) }.check_valid());
}

#[test]
fn red_black_delete_of_nodes() {
    let (rest, short) = rbtree::delete_top(rb(5, Red, None, None));
    assert!(rest.is_none() && !short);
    let (rest, short) = rbtree::delete_top(rb(5, Black, None, None));
    assert!(rest.is_none() && short);
    let (rest, short) = rbtree::delete_top(rb(5, Black, Some(rb(3, Red, None, None)), None));
    assert!(!short);
    assert_eq!((rest.as_ref().unwrap().value, rest.as_ref().unwrap().tag), (3, Black));
    let full = rb(5, Black, Some(rb(3, Red, None, None)), Some(rb(8, Red, None, None)));
    let (rest, short) = rbtree::delete_top(full);
    assert!(!short);
    assert_eq!(rest.as_ref().unwrap().value, 8);
    assert_eq!(keys(&rest), vec![3, 8]);
    let full = rb(5, Black, Some(rb(3, Black, None, None)), Some(rb(8, Black, None, None)));
    let (rest, deleted, short) = rbtree::delete_node(Some(full), 3);
    assert_eq!(deleted, Some(3));
    assert!(short);
    assert_eq!(keys(&rest), vec![5, 8]);
    let (rest, deleted, short) = rbtree::delete_node(rest, 4);
    assert_eq!(deleted, None);
    assert!(!short);
    assert_eq!(keys(&rest), vec![5, 8]);
}
