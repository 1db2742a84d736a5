use binary_trees::avltree::AVLTree;
use binary_trees::prelude::{SimpleTreeTrait, TreeKey, TreeTrait};
use binary_trees::rbtree::NodeColor::{Black, Red};
use binary_trees::rbtree::{NodeColor, RedBlackTree};
use binary_trees::tree::{Link, TreeNode};

fn rb(value: i32, tag: NodeColor, left: Link<i32, NodeColor>, right: Link<i32, NodeColor>) -> Link<i32, NodeColor> {
    Some(Box::new(TreeNode { value, tag, left, right }))
}

fn fixed_tree() -> RedBlackTree<i32> {
    let ten = rb(10, Red, rb(9, Black, None, None), rb(11, Black, None, None));
    let twelve = rb(12, Black, ten, rb(20, Black, None, None));
    let two = rb(2, Black, rb(1, Black, None, None), rb(5, Black, None, None));
    RedBlackTree { root: rb(8, Black, two, twelve) }
}

/// A fixed sequence of numbers that looks shuffled.
fn shuffled(n: u32, seed: u64) -> Vec<u32> {
    let mut v: Vec<u32> = (0..n).collect();
    let mut state = seed;
    for i in (1..v.len()).rev() {
        state = state.wrapping_mul(6364136223846793005).wrapping_add(1442695040888963407);
        let j = ((state >> 33) as usize) % (i + 1);
        v.swap(i, j);
    }
    v
}

#[test]
fn avl_single_insert_has_height_one() {
    let mut tree: AVLTree<i32> = AVLTree::new();
    assert!(tree.insert(5));
    assert_eq!(tree.height(), 1);
    assert_eq!(tree.in_order_traverse(), vec![5]);
    assert_eq!(tree.count_leaves(), 1);
}

#[test]
fn avl_three_ascending_inserts_rotate() {
    let mut tree: AVLTree<i32> = AVLTree::new();
    tree.insert(5);
    tree.insert(6);
    tree.insert(8);
    assert!(tree.check_valid());
    assert_eq!(tree.in_order_traverse(), vec![5, 6, 8]);
    assert_eq!(tree.root.as_ref().unwrap().value, 6);
    assert_eq!(tree.height(), 2);
    assert_eq!(tree.count_leaves(), 2);
}

#[test]
fn red_black_twenty_inserts_are_sorted_and_valid() {
    let input = [12, 1, 9, 2, 0, 11, 7, 19, 4, 15, 18, 5, 14, 13, 10, 16, 6, 3, 8, 17];
    let mut tree = RedBlackTree::new();
    for v in input {
        assert!(tree.insert(v));
        assert!(tree.check_valid());
    }
    let mut sorted = input.to_vec();
    sorted.sort();
    assert_eq!(tree.in_order_traverse(), sorted);
}

#[test]
fn red_black_fixed_tree_delete_two() {
    let mut tree = fixed_tree();
    assert!(tree.check_valid());
    assert_eq!(tree.delete(2), Some(2));
    assert!(tree.check_valid());
    assert_eq!(tree.in_order_traverse(), vec![1, 5, 8, 9, 10, 11, 12, 20]);
}

#[test]
fn delete_of_missing_key_changes_nothing() {
    let mut avl: AVLTree<i32> = AVLTree::new();
    let mut rbt: RedBlackTree<i32> = RedBlackTree::new();
    for v in [4, 2, 6, 1, 3] {
        avl.insert(v);
        rbt.insert(v);
    }
    let before_avl = avl.in_order_traverse();
    let before_rbt = rbt.in_order_traverse();
    assert_eq!(avl.delete(5), None);
    assert_eq!(rbt.delete(5), None);
    assert_eq!(avl.in_order_traverse(), before_avl);
    assert_eq!(rbt.in_order_traverse(), before_rbt);
    assert!(avl.check_valid());
    assert!(rbt.check_valid());
}

#[test]
fn deleting_every_key_empties_the_tree() {
    let keys = shuffled(64, 7);
    let order = shuffled(64, 99);
    let mut avl: AVLTree<u32> = AVLTree::new();
    let mut rbt: RedBlackTree<u32> = RedBlackTree::new();
    for k in &keys {
        avl.insert(*k);
        rbt.insert(*k);
    }
    for k in &order {
        assert_eq!(avl.delete(*k), Some(*k));
        assert_eq!(rbt.delete(*k), Some(*k));
        assert!(avl.check_valid());
        assert!(rbt.check_valid());
    }
    assert!(avl.is_empty());
    assert!(rbt.is_empty());
    assert_eq!(avl.height(), 0);
    assert_eq!(rbt.height(), 0);
}

#[test]
fn trees_stay_fit_for_more() {
    let mut avl: AVLTree<u32> = AVLTree::new();
    let mut rbt: RedBlackTree<u32> = RedBlackTree::new();
    for k in shuffled(100, 31) {
        avl.insert(k);
        rbt.insert(k);
        assert!(avl.check_invariants() && rbt.check_invariants());
        assert!(!rbt.is_empty());
        assert_eq!(rbt.root.as_ref().unwrap().tag, Black);
    }
    for k in shuffled(100, 32) {
        assert_eq!(avl.delete(k), Some(k));
        assert_eq!(rbt.delete(k), Some(k));
        assert!(avl.check_invariants() && rbt.check_invariants());
        assert!(!avl.search(k) && !rbt.search(k));
    }
    assert!(avl.is_empty() && rbt.is_empty());
    assert!(avl.in_order_traverse().is_empty() && rbt.in_order_traverse().is_empty());
}

#[test]
fn empty_trees() {
    let mut avl: AVLTree<i32> = AVLTree::new();
    let mut rbt: RedBlackTree<i32> = RedBlackTree::new();
    assert!(avl.is_empty() && rbt.is_empty());
    assert_eq!(avl.height(), 0);
    assert_eq!(rbt.height(), 0);
    assert_eq!(avl.count_leaves(), 0);
    assert_eq!(rbt.count_leaves(), 0);
    assert!(avl.in_order_traverse().is_empty());
    assert!(rbt.in_order_traverse().is_empty());
    assert!(avl.check_valid() && rbt.check_valid());
    assert!(!avl.search(1) && !rbt.search(1));
    assert_eq!(avl.delete(1), None);
    assert_eq!(rbt.delete(1), None);
    assert!(rbt.check_color());
}

#[test]
fn keys_ascend_after_every_insert() {
    let mut avl: AVLTree<u32> = AVLTree::new();
    let mut rbt: RedBlackTree<u32> = RedBlackTree::new();
    for k in shuffled(200, 3) {
        avl.insert(k % 150);
        rbt.insert(k % 150);
        let a = avl.in_order_traverse();
        let r = rbt.in_order_traverse();
        assert!(a.windows(2).all(|w| w[0] < w[1]));
        assert_eq!(a, r);
    }
    assert_eq!(avl.in_order_traverse().len(), 150);
}

#[test]
fn avl_stays_balanced_under_inserts_and_deletes() {
    let mut tree: AVLTree<u32> = AVLTree::new();
    for k in shuffled(300, 11) {
        tree.insert(k);
        assert!(tree.check_valid());
    }
    // 300 keys fit a tree of height 9 at the least and 12 at the most.
    assert!(tree.height() >= 9 && tree.height() <= 12);
    for k in shuffled(300, 12).into_iter().take(250) {
        assert_eq!(tree.delete(k), Some(k));
        assert!(tree.check_valid());
    }
    assert_eq!(tree.in_order_traverse().len(), 50);
}

#[test]
fn red_black_rules_hold_under_inserts_and_deletes() {
    let mut tree: RedBlackTree<u32> = RedBlackTree::new();
    for k in shuffled(300, 21) {
        tree.insert(k);
        assert!(tree.check_valid());
        assert!(tree.check_color());
        assert_eq!(tree.root.as_ref().unwrap().tag, NodeColor::Black);
    }
    for k in shuffled(300, 22).into_iter().take(250) {
        assert_eq!(tree.delete(k), Some(k));
        assert!(tree.check_valid());
    }
    assert_eq!(tree.in_order_traverse().len(), 50);
}

#[test]
fn insert_then_delete_restores_the_keys() {
    let mut avl: AVLTree<i32> = AVLTree::new();
    let mut rbt: RedBlackTree<i32> = RedBlackTree::new();
    for v in [10, 5, 15, 3, 7, 12, 20] {
        avl.insert(v);
        rbt.insert(v);
    }
    let before = avl.in_order_traverse();
    for v in [1, 6, 11, 30] {
        assert!(avl.insert(v));
        assert_eq!(avl.delete(v), Some(v));
        assert_eq!(avl.in_order_traverse(), before);
        assert!(rbt.insert(v));
        assert_eq!(rbt.delete(v), Some(v));
        assert_eq!(rbt.in_order_traverse(), before);
    }
}

#[test]
fn second_insert_of_a_key_changes_nothing() {
    let mut avl: AVLTree<i32> = AVLTree::new();
    let mut rbt: RedBlackTree<i32> = RedBlackTree::new();
    for v in [10, 5, 15] {
        avl.insert(v);
        rbt.insert(v);
    }
    assert!(avl.insert(7));
    let after_first = avl.in_order_traverse();
    let height = avl.height();
    assert!(!avl.insert(7));
    assert_eq!(avl.in_order_traverse(), after_first);
    assert_eq!(avl.height(), height);
    assert!(avl.check_invariants() && rbt.check_invariants());
    assert!(rbt.insert(7));
    assert!(!rbt.insert(7));
    assert_eq!(rbt.in_order_traverse(), after_first);
    assert_eq!(after_first, vec![5, 7, 10, 15]);
}

#[test]
fn counts_follow_inserts_and_deletes() {
    let mut avl: AVLTree<u32> = AVLTree::new();
    let mut rbt: RedBlackTree<u32> = RedBlackTree::new();
    let keys = shuffled(40, 5);
    for (n, k) in keys.iter().enumerate() {
        avl.insert(*k);
        rbt.insert(*k);
        assert_eq!(avl.in_order_traverse().len(), n + 1);
        assert_eq!(rbt.in_order_traverse().len(), n + 1);
        assert!(avl.count_leaves() >= 1);
        assert!(rbt.count_leaves() >= 1);
    }
    assert_eq!(avl.delete(17), Some(17));
    assert_eq!(rbt.delete(17), Some(17));
    assert_eq!(avl.in_order_traverse().len(), 39);
    assert_eq!(rbt.in_order_traverse().len(), 39);
}

#[test]
fn avl_heights_and_leaves_of_a_full_tree() {
    let mut tree: AVLTree<i32> = AVLTree::new();
    for v in 1..=7 {
        tree.insert(v);
    }
    assert_eq!(tree.height(), 3);
    assert_eq!(tree.count_leaves(), 4);
    assert_eq!(tree.root.as_ref().unwrap().value, 4);
    tree.insert(8);
    assert_eq!(tree.height(), 4);
    assert_eq!(tree.count_leaves(), 4);
}

#[test]
fn red_black_height_and_leaves() {
    let mut tree: RedBlackTree<i32> = RedBlackTree::new();
    for v in [2, 1, 3] {
        tree.insert(v);
    }
    assert_eq!(tree.height(), 2);
    assert_eq!(tree.count_leaves(), 2);
    assert_eq!(fixed_tree().height(), 4);
    assert_eq!(fixed_tree().count_leaves(), 5);
}

#[test]
fn search_finds_what_was_inserted() {
    let mut avl: AVLTree<i64> = AVLTree::new();
    let mut rbt: RedBlackTree<i64> = RedBlackTree::new();
    for v in [-5i64, 100, 3, 42, -77] {
        avl.insert(v);
        rbt.insert(v);
    }
    for v in [-5i64, 100, 3, 42, -77] {
        assert!(avl.search(v));
        assert!(rbt.search(v));
    }
    for v in [0i64, 4, 99, -78] {
        assert!(!avl.search(v));
        assert!(!rbt.search(v));
    }
    avl.delete(42);
    rbt.delete(42);
    assert!(!avl.search(42) && !rbt.search(42));
}

fn fill<Tree: SimpleTreeTrait<u8>>(tree: &mut Tree) -> Vec<u8> {
    for v in [9u8, 3, 200, 3, 14] {
        tree.insert(v);
    }
    tree.delete(9);
    tree.in_order_traverse()
}

fn holds<Tree: TreeTrait<u8, A>, A>(tree: &Tree, v: u8) -> bool {
    tree.check_valid() && tree.check_invariants() && tree.search(v) && tree.root().is_some()
}

#[test]
fn both_trees_through_the_shared_traits() {
    let mut avl: AVLTree<u8> = AVLTree::new();
    let mut rbt: RedBlackTree<u8> = RedBlackTree::new();
    assert_eq!(fill(&mut avl), vec![3, 14, 200]);
    assert_eq!(fill(&mut rbt), vec![3, 14, 200]);
    assert!(holds(&avl, 14) && holds(&rbt, 200));
    assert!(!holds(&avl, 9));
    assert_eq!(SimpleTreeTrait::height(&avl), 2);
    assert_eq!(SimpleTreeTrait::height(&rbt), 2);
    assert_eq!(SimpleTreeTrait::count_leaves(&rbt), 2);
    assert!(!SimpleTreeTrait::is_empty(&rbt));
}

#[test]
fn keys_of_every_integer_type_compare() {
    assert!(3i8.less_than(&4) && !(-3i8).less_than(&-4));
    assert!((-1i16).less_than(&0) && 0i32.less_than(&1) && (-9i64).less_than(&9));
    assert!(i128::MIN.less_than(&i128::MAX) && (-1isize).less_than(&1));
    assert!(1u8.less_than(&2) && 1u16.less_than(&2) && 1u32.less_than(&2) && 1u64.less_than(&2));
    assert!(0u128.less_than(&u128::MAX) && 0usize.less_than(&1));
    assert!(!5u32.less_than(&5));
    assert!(binary_trees::key::same_key(&5u32, &5));
    assert!(!binary_trees::key::same_key(&5u32, &6));
}
