//! AVL tree: a binary search tree in which the heights of the two subtrees
//! of every node differ by at most one. Each node caches the height of the
//! subtree that starts at it.

use crate::key::TreeKey;
use crate::order::{
    is_strictly_increasing, lemma_first_then_rest, lemma_short_increasing, lemma_with_key_alone,
    lemma_with_key_increasing, lemma_with_key_len, lemma_with_key_present, lemma_with_key_step, lemma_without_first,
    lemma_without_key_absent, lemma_without_key_increasing, lemma_without_key_len, lemma_without_key_step,
    strictly_increasing, with_key, without_key,
};
use crate::tree::{
    balanced, height_of, keys_of, leaves_of, lemma_height_and_leaves_bounded, rotate, rotated, search_insert_point,
    search_node, side_of, Direction, Link, SimpleTreeTrait, TreeNode, TreeTrait,
};
use vstd::prelude::*;

verus! {

/// The height that the top node of a subtree has cached; 0 for no subtree.
pub open spec fn cached_height<T>(link: Link<T, u32>) -> nat {
    match link {
        None => 0,
        Some(node) => node.tag as nat,
    }
}

/// One more than the larger of two heights.
pub open spec fn height_above(l: nat, r: nat) -> nat {
    if l >= r {
        l + 1
    } else {
        r + 1
    }
}

/// Every node caches its true height, and the heights of its two subtrees
/// differ by at most one.
pub open spec fn avl_shape<T>(link: Link<T, u32>) -> bool
    decreases link,
{
    match link {
        None => true,
        Some(node) => {
            &&& avl_shape(node.left)
            &&& avl_shape(node.right)
            &&& node.tag == height_of(link)
            &&& height_of(node.left) <= height_of(node.right) + 1
            &&& height_of(node.right) <= height_of(node.left) + 1
        },
    }
}

/// A subtree of AVL shape is balanced at every node.
pub proof fn lemma_avl_shape_is_balanced<T>(link: Link<T, u32>)
    requires
        avl_shape(link),
    ensures
        balanced(link),
    decreases link,
{
    if let Some(node) = link {
        lemma_avl_shape_is_balanced(node.left);
        lemma_avl_shape_is_balanced(node.right);
    }
}

/// In a subtree of AVL shape the cached height is the height.
pub proof fn lemma_cached_is_height<T>(link: Link<T, u32>)
    requires
        avl_shape(link),
    ensures
        cached_height(link) == height_of(link),
{
}

/// `node` with its cached height set anew from the heights that its
/// children have cached.
pub open spec fn retagged<T>(node: TreeNode<T, u32>) -> TreeNode<T, u32> {
    TreeNode { tag: height_above(cached_height(node.left), cached_height(node.right)) as u32, ..node }
}

/// What a rotation followed by the two height updates makes of `parent`:
/// the rotated subtree, with the cached height of the lowered node set
/// anew first and that of the new top after it.
pub open spec fn rotated_with_heights<T>(parent: TreeNode<T, u32>, dir: Direction) -> TreeNode<T, u32>
    recommends
        parent.child_at(dir) is Some,
{
    let top = rotated(parent, dir);
    let lowered = retagged(*top.child_at(dir.flipped()).unwrap());
    retagged(top.with_child_at(dir.flipped(), lowered.as_link()))
}

/// What the double rotation makes of `parent`: its child on side `dir` is
/// rotated with that child's inner child, then `parent` with the new child.
pub open spec fn double_rotated_with_heights<T>(parent: TreeNode<T, u32>, dir: Direction) -> TreeNode<T, u32>
    recommends
        parent.child_at(dir) is Some,
        parent.child_at(dir).unwrap().child_at(dir.flipped()) is Some,
{
    let child = rotated_with_heights(*parent.child_at(dir).unwrap(), dir.flipped());
    rotated_with_heights(parent.with_child_at(dir, child.as_link()), dir)
}

impl<T> TreeNode<T, u32> {
    /// A tree of the one key `value`.
    pub fn new_root(value: T) -> (root: Link<T, u32>)
        ensures
            root == (TreeNode { value, tag: 1u32, left: None, right: None }).as_link(),
            avl_shape(root),
            keys_of(root) == seq![value],
            height_of(root) == 1,
    {
        let root = Some(Box::new(TreeNode::new(value, 1u32)));
        proof {
            reveal_with_fuel(keys_of, 2);
            reveal_with_fuel(height_of, 2);
            reveal_with_fuel(avl_shape, 2);
            assert(keys_of(root) =~= seq![value]);
        }
        root
    }

    /// The cached height of the subtree that starts at this node.
    pub fn height(&self) -> (h: u32)
        ensures
            h == self.tag,
    {
        self.tag
    }

    /// The cached heights of the left and of the right subtree.
    pub fn get_children_height(&self) -> (h: (u32, u32))
        ensures
            h.0 == cached_height(self.left),
            h.1 == cached_height(self.right),
    {
        let left_height: u32 = match &self.left {
            Some(ln) => ln.tag,
            None => 0,
        };
        let right_height: u32 = match &self.right {
            Some(rn) => rn.tag,
            None => 0,
        };
        (left_height, right_height)
    }

    /// Whether the cached heights of the two subtrees differ by less than two.
    pub fn is_balanced(&self) -> (b: bool)
        ensures
            b == (cached_height(self.left) < cached_height(self.right) + 2 && cached_height(self.right)
                < cached_height(self.left) + 2),
    {
        let (left_height, right_height) = self.get_children_height();
        if left_height >= right_height {
            left_height - right_height < 2
        } else {
            right_height - left_height < 2
        }
    }

    /// Sets the cached height anew from the heights that the children cache.
    pub fn update_height(&mut self)
        requires
            cached_height(old(self).left) < u32::MAX,
            cached_height(old(self).right) < u32::MAX,
        ensures
            *final(self) == retagged(*old(self)),
    {
        let (left_height, right_height) = self.get_children_height();
        self.tag = if left_height >= right_height {
            left_height + 1
        } else {
            right_height + 1
        };
    }

    /// Whether the subtree that starts at this node has AVL shape: every
    /// node balanced, every cached height right.
    pub fn check_balance_recurse(&self) -> (b: bool)
        ensures
            b == avl_shape(self.as_link()),
        decreases self,
    {
        if let Some(l) = &self.left {
            assert(self.left == l.as_link());
            if !l.check_balance_recurse() {
                return false;
            }
        }
        if let Some(r) = &self.right {
            assert(self.right == r.as_link());
            if !r.check_balance_recurse() {
                return false;
            }
        }
        assert(avl_shape(self.left) && avl_shape(self.right));
        let (left_height, right_height) = self.get_children_height();
        assert(left_height == height_of(self.left));
        assert(right_height == height_of(self.right));
        if !self.is_balanced() {
            return false;
        }
        let higher: u32 = if left_height >= right_height {
            left_height
        } else {
            right_height
        };
        if higher == u32::MAX {
            return false;
        }
        self.tag == higher + 1
    }
}

/// Rotates `root` with its right child, which takes its place.
pub fn left_rotate<T>(root: Box<TreeNode<T, u32>>) -> (top: Box<TreeNode<T, u32>>)
    requires
        root.right is Some,
    ensures
        *top == rotated(*root, Direction::Right),
{
    rotate(root, Direction::Right)
}

/// Rotates `root` with its left child, which takes its place.
pub fn right_rotate<T>(root: Box<TreeNode<T, u32>>) -> (top: Box<TreeNode<T, u32>>)
    requires
        root.left is Some,
    ensures
        *top == rotated(*root, Direction::Left),
{
    rotate(root, Direction::Left)
}

/// The single rotation to the left, heights included: `root` goes down to
/// the left, its right child comes up, and both get their heights anew.
pub fn left_left_rotate<T>(root: Box<TreeNode<T, u32>>) -> (top: Box<TreeNode<T, u32>>)
    requires
        root.right is Some,
        cached_height(root.left) + 2 <= u32::MAX,
        cached_height(root.right.unwrap().left) + 2 <= u32::MAX,
        cached_height(root.right.unwrap().right) + 1 <= u32::MAX,
    ensures
        *top == rotated_with_heights(*root, Direction::Right),
{
    let mut top = left_rotate(root);
    let mut lowered = top.left.take().unwrap();
    lowered.update_height();
    top.left = Some(lowered);
    top.update_height();
    top
}

/// The single rotation to the right, heights included: `root` goes down to
/// the right, its left child comes up, and both get their heights anew.
pub fn right_right_rotate<T>(root: Box<TreeNode<T, u32>>) -> (top: Box<TreeNode<T, u32>>)
    requires
        root.left is Some,
        cached_height(root.right) + 2 <= u32::MAX,
        cached_height(root.left.unwrap().right) + 2 <= u32::MAX,
        cached_height(root.left.unwrap().left) + 1 <= u32::MAX,
    ensures
        *top == rotated_with_heights(*root, Direction::Left),
{
    let mut top = right_rotate(root);
    let mut lowered = top.right.take().unwrap();
    lowered.update_height();
    top.right = Some(lowered);
    top.update_height();
    top
}

/// What the definitions say of a single node, one step down.
pub proof fn lemma_avl_node<T>(node: TreeNode<T, u32>)
    ensures
        keys_of(node.as_link()) == keys_of(node.left) + seq![node.value] + keys_of(node.right),
        height_of(node.as_link()) == height_above(height_of(node.left), height_of(node.right)),
        avl_shape(node.as_link()) == {
            &&& avl_shape(node.left)
            &&& avl_shape(node.right)
            &&& node.tag == height_of(node.as_link())
            &&& height_of(node.left) <= height_of(node.right) + 1
            &&& height_of(node.right) <= height_of(node.left) + 1
        },
{
}

/// What a rotation with height updates yields, given that the three
/// subtrees it moves have AVL shape: the heights of the lowered node and of
/// the new top, and when the result has AVL shape.
pub proof fn lemma_rotation_heights<T>(parent: TreeNode<T, u32>, dir: Direction)
    requires
        parent.child_at(dir) is Some,
        avl_shape(parent.child_at(dir).unwrap().child_at(dir)),
        avl_shape(parent.child_at(dir).unwrap().child_at(dir.flipped())),
        avl_shape(parent.child_at(dir.flipped())),
        height_of(parent.child_at(dir)) < u32::MAX,
        height_of(parent.child_at(dir.flipped())) + 2 <= u32::MAX,
    ensures
        ({
            let child = *parent.child_at(dir).unwrap();
            let inner = height_of(child.child_at(dir.flipped()));
            let outer = height_of(child.child_at(dir));
            let other = height_of(parent.child_at(dir.flipped()));
            let top = rotated_with_heights(parent, dir);
            let low = height_above(inner, other);
            &&& keys_of(top.as_link()) == keys_of(parent.as_link())
            &&& top.child_at(dir) == child.child_at(dir)
            &&& top.child_at(dir.flipped()) is Some
            &&& top.child_at(dir.flipped()).unwrap().child_at(dir) == child.child_at(dir.flipped())
            &&& top.child_at(dir.flipped()).unwrap().child_at(dir.flipped()) == parent.child_at(dir.flipped())
            &&& height_of(top.child_at(dir.flipped())) == low
            &&& height_of(top.as_link()) == height_above(outer, low)
            &&& top.tag == height_above(outer, low)
            &&& avl_shape(top.as_link()) == {
                &&& inner <= other + 1
                &&& other <= inner + 1
                &&& outer <= low + 1
                &&& low <= outer + 1
            }
        }),
{
    let child = *parent.child_at(dir).unwrap();
    let inner = child.child_at(dir.flipped());
    let outer = child.child_at(dir);
    let other = parent.child_at(dir.flipped());
    let lowered = retagged(parent.with_child_at(dir, inner));
    let top = rotated_with_heights(parent, dir);
    lemma_avl_node(child);
    lemma_avl_node(parent);
    lemma_avl_node(lowered);
    lemma_avl_node(top);
    lemma_cached_is_height(inner);
    lemma_cached_is_height(outer);
    lemma_cached_is_height(other);
    assert(top.child_at(dir.flipped()) == lowered.as_link());
    assert(top.child_at(dir) == outer);
    assert(lowered.child_at(dir) == inner);
    assert(lowered.child_at(dir.flipped()) == other);
    assert(keys_of(top.as_link()) =~= keys_of(parent.as_link()));
}

/// The single rotation restores AVL shape where the subtree on side `dir`
/// is two higher than the other and leans outward or not at all.
pub proof fn lemma_single_rotation<T>(parent: TreeNode<T, u32>, dir: Direction)
    requires
        parent.child_at(dir) is Some,
        avl_shape(parent.child_at(dir)),
        avl_shape(parent.child_at(dir.flipped())),
        height_of(parent.child_at(dir)) == height_of(parent.child_at(dir.flipped())) + 2,
        height_of(parent.child_at(dir).unwrap().child_at(dir)) >= height_of(
            parent.child_at(dir).unwrap().child_at(dir.flipped()),
        ),
        height_of(parent.child_at(dir)) < u32::MAX,
    ensures
        avl_shape(rotated_with_heights(parent, dir).as_link()),
        keys_of(rotated_with_heights(parent, dir).as_link()) == keys_of(parent.as_link()),
        height_of(parent.child_at(dir)) <= height_of(rotated_with_heights(parent, dir).as_link()) <= height_of(
            parent.child_at(dir),
        ) + 1,
{
    lemma_avl_node(*parent.child_at(dir).unwrap());
    lemma_rotation_heights(parent, dir);
}

/// The double rotation restores AVL shape where the subtree on side `dir`
/// is two higher than the other and leans inward.
pub proof fn lemma_double_rotation<T>(parent: TreeNode<T, u32>, dir: Direction)
    requires
        parent.child_at(dir) is Some,
        avl_shape(parent.child_at(dir)),
        avl_shape(parent.child_at(dir.flipped())),
        height_of(parent.child_at(dir)) == height_of(parent.child_at(dir.flipped())) + 2,
        height_of(parent.child_at(dir).unwrap().child_at(dir)) < height_of(
            parent.child_at(dir).unwrap().child_at(dir.flipped()),
        ),
        height_of(parent.child_at(dir)) < u32::MAX,
    ensures
        parent.child_at(dir).unwrap().child_at(dir.flipped()) is Some,
        avl_shape(double_rotated_with_heights(parent, dir).as_link()),
        keys_of(double_rotated_with_heights(parent, dir).as_link()) == keys_of(parent.as_link()),
        height_of(double_rotated_with_heights(parent, dir).as_link()) == height_of(parent.child_at(dir)),
{
    let child = *parent.child_at(dir).unwrap();
    lemma_avl_node(child);
    lemma_avl_node(parent);
    let mid = *child.child_at(dir.flipped()).unwrap();
    lemma_avl_node(mid);
    assert(dir.flipped().flipped() == dir);
    lemma_rotation_heights(child, dir.flipped());
    let new_child = rotated_with_heights(child, dir.flipped());
    let relinked = parent.with_child_at(dir, new_child.as_link());
    lemma_avl_node(relinked);
    assert(relinked.child_at(dir) == new_child.as_link());
    assert(relinked.child_at(dir.flipped()) == parent.child_at(dir.flipped()));
    lemma_rotation_heights(relinked, dir);
    assert(keys_of(relinked.as_link()) =~= keys_of(parent.as_link()));
}

/// The double rotation for a subtree that is too high on the right: the
/// right child is rotated to the right, then `root` to the left.
pub fn left_right_rotate<T>(root: Box<TreeNode<T, u32>>) -> (top: Box<TreeNode<T, u32>>)
    requires
        root.right is Some,
        root.right.unwrap().left is Some,
        cached_height(root.left) + 2 <= u32::MAX,
        cached_height(root.right.unwrap().right) + 2 <= u32::MAX,
        cached_height(root.right.unwrap().left.unwrap().left) + 2 <= u32::MAX,
        cached_height(root.right.unwrap().left.unwrap().right) + 2 <= u32::MAX,
    ensures
        *top == double_rotated_with_heights(*root, Direction::Right),
{
    let mut root = root;
    let right = root.right.take().unwrap();
    let right = right_right_rotate(right);
    root.right = Some(right);
    left_left_rotate(root)
}

/// The double rotation for a subtree that is too high on the left: the
/// left child is rotated to the left, then `root` to the right.
pub fn right_left_rotate<T>(root: Box<TreeNode<T, u32>>) -> (top: Box<TreeNode<T, u32>>)
    requires
        root.left is Some,
        root.left.unwrap().right is Some,
        cached_height(root.right) + 2 <= u32::MAX,
        cached_height(root.left.unwrap().left) + 2 <= u32::MAX,
        cached_height(root.left.unwrap().right.unwrap().left) + 2 <= u32::MAX,
        cached_height(root.left.unwrap().right.unwrap().right) + 2 <= u32::MAX,
    ensures
        *top == double_rotated_with_heights(*root, Direction::Left),
{
    let mut root = root;
    let left = root.left.take().unwrap();
    let left = left_left_rotate(left);
    root.left = Some(left);
    right_right_rotate(root)
}

/// What restoring the balance makes of `root`: the cached height is set
/// anew; where the subtrees then differ by two, the higher one is rotated
/// up, by the single rotation if it leans outward or not at all, by the
/// double rotation if it leans inward.
pub open spec fn rebalanced<T>(root: TreeNode<T, u32>) -> TreeNode<T, u32> {
    let node = retagged(root);
    let left_height = cached_height(node.left);
    let right_height = cached_height(node.right);
    if left_height < right_height + 2 && right_height < left_height + 2 {
        node
    } else if left_height < right_height {
        let right = *node.right.unwrap();
        if cached_height(right.right) >= cached_height(right.left) {
            rotated_with_heights(node, Direction::Right)
        } else {
            double_rotated_with_heights(node, Direction::Right)
        }
    } else {
        let left = *node.left.unwrap();
        if cached_height(left.left) >= cached_height(left.right) {
            rotated_with_heights(node, Direction::Left)
        } else {
            double_rotated_with_heights(node, Direction::Left)
        }
    }
}

/// Restores AVL shape at `root` after one of its subtrees has grown or
/// shrunk by one: sets the cached height anew and, where the subtrees now
/// differ by two, rotates (once where the higher subtree leans outward or
/// not at all, twice where it leans inward).
pub fn rebalance_helper<T>(root: Box<TreeNode<T, u32>>) -> (top: Box<TreeNode<T, u32>>)
    requires
        avl_shape(root.left),
        avl_shape(root.right),
        height_of(root.left) <= height_of(root.right) + 2,
        height_of(root.right) <= height_of(root.left) + 2,
        height_of(root.left) < u32::MAX,
        height_of(root.right) < u32::MAX,
    ensures
        *top == rebalanced(*root),
        avl_shape(Some(top)),
        keys_of(Some(top)) == keys_of(Some(root)),
        height_of(Some(top)) <= height_of(Some(root)),
        height_of(Some(top)) + 1 >= height_of(Some(root)),
        (height_of(root.left) <= height_of(root.right) + 1 && height_of(root.right) <= height_of(root.left) + 1)
            ==> *top == retagged(*root),
{
    proof {
        lemma_cached_is_height(root.left);
        lemma_cached_is_height(root.right);
        lemma_avl_node(*root);
    }
    let mut node = root;
    node.update_height();
    proof {
        lemma_avl_node(*node);
    }
    if node.is_balanced() {
        return node;
    }
    let (left_height, right_height) = node.get_children_height();
    if left_height < right_height {
        let (rlh, rrh) = node.right.as_ref().unwrap().get_children_height();
        proof {
            let right = *node.right.unwrap();
            lemma_avl_node(right);
            lemma_cached_is_height(right.left);
            lemma_cached_is_height(right.right);
            if rrh >= rlh {
                lemma_single_rotation(*node, Direction::Right);
            } else {
                lemma_double_rotation(*node, Direction::Right);
                let mid = *right.left.unwrap();
                lemma_avl_node(mid);
                lemma_cached_is_height(mid.left);
                lemma_cached_is_height(mid.right);
            }
        }
        if rrh >= rlh {
            left_left_rotate(node)
        } else {
            left_right_rotate(node)
        }
    } else {
        let (llh, lrh) = node.left.as_ref().unwrap().get_children_height();
        proof {
            let left = *node.left.unwrap();
            lemma_avl_node(left);
            lemma_cached_is_height(left.left);
            lemma_cached_is_height(left.right);
            if llh >= lrh {
                lemma_single_rotation(*node, Direction::Left);
            } else {
                lemma_double_rotation(*node, Direction::Left);
                let mid = *left.right.unwrap();
                lemma_avl_node(mid);
                lemma_cached_is_height(mid.left);
                lemma_cached_is_height(mid.right);
            }
        }
        if llh >= lrh {
            right_right_rotate(node)
        } else {
            right_left_rotate(node)
        }
    }
}

/// The subtree that an insertion of `value` makes of `link`: a node of its
/// own where there is no subtree; otherwise the top with the insertion made
/// on the side where `value` belongs, and the balance restored.
pub open spec fn after_insert<T: TreeKey>(link: Link<T, u32>, value: T) -> TreeNode<T, u32>
    decreases link,
{
    match link {
        None => TreeNode { value, tag: 1u32, left: None, right: None },
        Some(node) => {
            let dir = side_of(node.value, value);
            rebalanced(node.with_child_at(dir, after_insert(node.child_at(dir), value).as_link()))
        },
    }
}

/// The subtree that a deletion of `value` makes of `link`: the top with the
/// deletion made on the side where `value` belongs, and the balance
/// restored; or, where the top holds `value`, what `after_delete_top` says.
pub open spec fn after_delete<T: TreeKey>(link: Link<T, u32>, value: T) -> Link<T, u32>
    decreases link, 1int,
{
    match link {
        None => None,
        Some(node) => if value.rank() == node.value.rank() {
            after_delete_top(*node)
        } else {
            let dir = side_of(node.value, value);
            Some(Box::new(rebalanced(node.with_child_at(dir, after_delete(node.child_at(dir), value)))))
        },
    }
}

/// The subtree that is left when the key at the top of `node` is deleted:
/// the only child, if there is at most one; otherwise `node` with the first
/// key of its right subtree in place of its own, that key deleted from the
/// right subtree, and the balance restored.
pub open spec fn after_delete_top<T: TreeKey>(node: TreeNode<T, u32>) -> Link<T, u32>
    decreases node, 0int,
{
    if node.left is Some && node.right is Some {
        let least = keys_of(node.right)[0];
        Some(
            Box::new(
                rebalanced(TreeNode { value: least, right: after_delete(node.right, least), ..node }),
            ),
        )
    } else if node.right is Some {
        node.right
    } else {
        node.left
    }
}

/// Hangs the new key `value` where its search ends, and restores AVL shape
/// at every node on the way back up.
pub fn insert_node<T: TreeKey>(link: Link<T, u32>, value: T) -> (top: Box<TreeNode<T, u32>>)
    requires
        avl_shape(link),
        strictly_increasing(keys_of(link)),
        !keys_of(link).contains(value),
        keys_of(link).len() < u32::MAX,
    ensures
        *top == after_insert(link, value),
        avl_shape(Some(top)),
        keys_of(Some(top)) == with_key(keys_of(link), value),
        height_of(link) <= height_of(Some(top)) <= height_of(link) + 1,
    decreases link,
{
    match link {
        None => {
            proof {
                lemma_with_key_alone(value);
            }
            TreeNode::new_root(value).unwrap()
        },
        Some(node) => {
            let mut node = node;
            proof {
                lemma_avl_node(*node);
                lemma_with_key_step(keys_of(node.left), node.value, keys_of(node.right), value);
                lemma_height_and_leaves_bounded(node.left);
                lemma_height_and_leaves_bounded(node.right);
            }
            if value.less_than(&node.value) {
                let left = node.left.take();
                let new_left = insert_node(left, value);
                node.left = Some(new_left);
            } else {
                let right = node.right.take();
                let new_right = insert_node(right, value);
                node.right = Some(new_right);
            }
            proof {
                lemma_avl_node(*node);
            }
            rebalance_helper(node)
        },
    }
}

/// Takes `value` out of the subtree, if it is there, and restores AVL shape
/// at every node on the way back up. A node with two children gives up its
/// key for the least key of its right subtree, and that key's node is the
/// one taken out.
pub fn delete_node<T: TreeKey>(link: Link<T, u32>, value: T) -> (res: (Link<T, u32>, Option<T>))
    requires
        avl_shape(link),
        strictly_increasing(keys_of(link)),
    ensures
        res.0 == after_delete(link, value),
        avl_shape(res.0),
        keys_of(res.0) == without_key(keys_of(link), value),
        res.1 == if keys_of(link).contains(value) { Some(value) } else { None },
        height_of(res.0) <= height_of(link) <= height_of(res.0) + 1,
    decreases link, 1int,
{
    match link {
        None => {
            proof {
                lemma_without_key_absent(keys_of(link), value);
            }
            (None, None)
        },
        Some(node) => {
            let mut node = node;
            proof {
                lemma_avl_node(*node);
                lemma_without_key_step(keys_of(node.left), node.value, keys_of(node.right), value);
            }
            if value.less_than(&node.value) {
                let left = node.left.take();
                let (new_left, deleted) = delete_node(left, value);
                node.left = new_left;
                proof {
                    lemma_avl_node(*node);
                }
                (Some(rebalance_helper(node)), deleted)
            } else if node.value.less_than(&value) {
                let right = node.right.take();
                let (new_right, deleted) = delete_node(right, value);
                node.right = new_right;
                proof {
                    lemma_avl_node(*node);
                }
                (Some(rebalance_helper(node)), deleted)
            } else {
                (delete_top(node), Some(value))
            }
        },
    }
}

/// Takes the key at the top of a subtree out of it. With two children the
/// top node stays and takes over the least key of its right subtree, whose
/// node goes instead; otherwise the only child, if any, takes its place.
pub fn delete_top<T: TreeKey>(node: Box<TreeNode<T, u32>>) -> (rest: Link<T, u32>)
    requires
        avl_shape(Some(node)),
        strictly_increasing(keys_of(Some(node))),
    ensures
        rest == after_delete_top(*node),
        avl_shape(rest),
        keys_of(rest) == keys_of(node.left) + keys_of(node.right),
        height_of(rest) <= height_of(Some(node)) <= height_of(rest) + 1,
    decreases node, 0int,
{
    let mut node = node;
    proof {
        lemma_avl_node(*node);
    }
    if node.left.is_some() && node.right.is_some() {
        let right = node.right.take();
        let ghost right_keys = keys_of(right);
        assert(right == right.unwrap().as_link());
        let right_min = right.as_ref().unwrap().get_min();
        proof {
            lemma_without_key_step(keys_of(node.left), node.value, right_keys, right_min);
            lemma_without_first(right_keys);
            lemma_first_then_rest(keys_of(node.left), right_keys);
        }
        let (new_right, _v) = delete_node(right, right_min);
        node.right = new_right;
        node.value = right_min;
        proof {
            lemma_avl_node(*node);
        }
        Some(rebalance_helper(node))
    } else {
        proof {
            reveal_with_fuel(height_of, 2);
        }
        TreeNode::delete_node(node)
    }
}

/// An AVL tree of keys of type `T`.
#[derive(Debug)]
pub struct AVLTree<T> {
    pub root: Link<T, u32>,
}

impl<T> View for AVLTree<T> {
    type V = Seq<T>;

    /// The keys of the tree in ascending order.
    open spec fn view(&self) -> Seq<T> {
        keys_of(self.root)
    }
}

impl<T: TreeKey> AVLTree<T> {
    /// What insertion and deletion rely on and keep: the keys ascend, every
    /// node is balanced and caches its true height, and the number of keys
    /// fits the `u32` that heights and leaf counts are given in.
    pub open spec fn valid(&self) -> bool {
        &&& strictly_increasing(self@)
        &&& avl_shape(self.root)
        &&& self@.len() <= u32::MAX
    }

    /// The tree is empty, or its keys ascend and at every node the heights
    /// of the two subtrees differ by less than two. Nothing is asked of the
    /// cached heights, nor of the number of keys.
    pub open spec fn sound(&self) -> bool {
        self.root is None || (strictly_increasing(self@) && balanced(self.root))
    }

    /// A valid tree is sound.
    pub proof fn lemma_valid_is_sound(&self)
        requires
            self.valid(),
        ensures
            self.sound(),
    {
        lemma_avl_shape_is_balanced(self.root);
    }

    /// An empty tree.
    pub fn new() -> (tree: Self)
        ensures
            tree.valid(),
            tree.sound(),
            tree.root is None,
            tree@ == Seq::<T>::empty(),
    {
        proof {
            lemma_short_increasing(Seq::<T>::empty());
        }
        AVLTree { root: None }
    }

    /// The top node of the tree, if there is one.
    pub fn root(&self) -> (r: &Link<T, u32>)
        ensures
            *r == self.root,
    {
        &self.root
    }

    /// Takes `value` out of the tree. Returns the key taken out, or `None`
    /// where the tree does not hold `value`; the tree is then unchanged.
    pub fn delete(&mut self, value: T) -> (deleted: Option<T>)
        requires
            old(self).valid(),
        ensures
            final(self).valid(),
            final(self).sound(),
            strictly_increasing(final(self)@),
            deleted == if old(self)@.contains(value) { Some(value) } else { None },
            final(self)@ == without_key(old(self)@, value),
            final(self)@.len() == old(self)@.len() - if deleted is Some { 1int } else { 0int },
            !final(self)@.contains(value),
            deleted is None ==> *final(self) == *old(self),
            deleted is Some ==> final(self).root == after_delete(old(self).root, value),
            height_of(final(self).root) <= height_of(old(self).root) <= height_of(final(self).root) + 1,
    {
        let node = search_node(&self.root, value);
        if node.is_none() {
            proof {
                lemma_without_key_absent(self@, value);
                lemma_avl_shape_is_balanced(self.root);
            }
            return None;
        }
        let root = self.root.take();
        let (new_root, deleted) = delete_node(root, value);
        self.root = new_root;
        proof {
            lemma_without_key_increasing(old(self)@, value);
            lemma_without_key_len(old(self)@, value);
            lemma_avl_shape_is_balanced(self.root);
        }
        deleted
    }

    /// Puts `value` into the tree. Returns `false` where the tree already
    /// holds `value`; the tree is then unchanged. There must be room for a
    /// new key: a tree holds at most `u32::MAX` keys.
    pub fn insert(&mut self, value: T) -> (inserted: bool)
        requires
            old(self).valid(),
            old(self)@.len() < u32::MAX || old(self)@.contains(value),
        ensures
            final(self).valid(),
            final(self).sound(),
            strictly_increasing(final(self)@),
            final(self).root is Some,
            inserted == !old(self)@.contains(value),
            final(self)@ == with_key(old(self)@, value),
            final(self)@.len() == old(self)@.len() + if inserted { 1int } else { 0int },
            final(self)@.contains(value),
            !inserted ==> *final(self) == *old(self),
            inserted ==> final(self).root == after_insert(old(self).root, value).as_link(),
            height_of(old(self).root) <= height_of(final(self).root) <= height_of(old(self).root) + 1,
    {
        if self.root.is_none() {
            self.root = TreeNode::new_root(value);
            proof {
                lemma_with_key_alone(value);
                lemma_short_increasing(seq![value]);
                lemma_avl_shape_is_balanced(self.root);
                assert(seq![value][0] == value);
            }
            return true;
        }
        let parent = search_insert_point(&self.root, value);
        if parent.is_none() {
            proof {
                lemma_with_key_present(self@, value);
                lemma_avl_shape_is_balanced(self.root);
            }
            return false;
        }
        let root = self.root.take();
        let new_root = insert_node(root, value);
        self.root = Some(new_root);
        proof {
            lemma_with_key_increasing(old(self)@, value);
            lemma_with_key_len(old(self)@, value);
            lemma_avl_shape_is_balanced(self.root);
        }
        true
    }

    /// Whether the tree holds `value`.
    pub fn search(&self, value: T) -> (found: bool)
        requires
            self.valid(),
        ensures
            found == self@.contains(value),
    {
        search_node(&self.root, value).is_some()
    }

    /// The height of the tree: the number of nodes on its longest path from
    /// the top down, 0 for an empty tree. Read from the top node, which
    /// must cache its true height, as every valid tree's does.
    pub fn height(&self) -> (h: u32)
        requires
            cached_height(self.root) == height_of(self.root),
        ensures
            h == height_of(self.root),
    {
        match &self.root {
            None => 0,
            Some(r) => r.height(),
        }
    }

    /// Whether the tree holds no key.
    pub fn is_empty(&self) -> (b: bool)
        ensures
            b == (self.root is None),
            b == (self@.len() == 0),
    {
        self.root.is_none()
    }

    /// The number of nodes without children, 0 for an empty tree.
    pub fn count_leaves(&self) -> (n: u32)
        requires
            self@.len() <= u32::MAX,
        ensures
            n == leaves_of(self.root),
    {
        match &self.root {
            None => 0,
            Some(r) => {
                proof {
                    lemma_height_and_leaves_bounded(self.root);
                }
                assert(self.root == r.as_link());
                r.count_leaves()
            },
        }
    }

    /// The keys of the tree in ascending order.
    pub fn in_order_traverse(&self) -> (keys: Vec<T>)
        ensures
            keys@ == self@,
            self.valid() ==> strictly_increasing(keys@),
    {
        let mut result = Vec::<T>::new();
        if let Some(r) = &self.root {
            assert(self.root == r.as_link());
            r.inorder(&mut result);
        }
        assert(result@ =~= self@);
        result
    }

    /// Checks the whole tree anew: whether it is empty, or its keys ascend
    /// and every node is balanced, by heights counted anew.
    pub fn check_valid(&self) -> (b: bool)
        ensures
            b == self.sound(),
    {
        match &self.root {
            None => true,
            Some(r) => {
                assert(self.root == r.as_link());
                let vec = self.in_order_traverse();
                if !is_strictly_increasing(&vec) {
                    return false;
                }
                assert(self@.len() == vec.len());
                r.balanced_height().is_some()
            },
        }
    }

    /// Checks the whole tree anew for all that insertion and deletion rely
    /// on: the order of the keys, the balance and the cached height of
    /// every node, and the number of keys.
    pub fn check_invariants(&self) -> (b: bool)
        ensures
            b == self.valid(),
    {
        match &self.root {
            None => {
                proof {
                    lemma_short_increasing(self@);
                }
                true
            },
            Some(r) => {
                assert(self.root == r.as_link());
                let vec = self.in_order_traverse();
                if vec.len() > u32::MAX as usize {
                    return false;
                }
                if !is_strictly_increasing(&vec) {
                    return false;
                }
                r.check_balance_recurse()
            },
        }
    }
}

impl<T: TreeKey> SimpleTreeTrait<T> for AVLTree<T> {
    open spec fn keys(&self) -> Seq<T> {
        self@
    }

    open spec fn well_formed(&self) -> bool {
        self.valid()
    }

    proof fn lemma_well_formed_ascends(&self) {
    }

    open spec fn nodes_high(&self) -> nat {
        height_of(self.root)
    }

    open spec fn leaf_nodes(&self) -> nat {
        leaves_of(self.root)
    }

    fn insert(&mut self, value: T) -> (inserted: bool) {
        AVLTree::<T>::insert(self, value)
    }

    fn delete(&mut self, value: T) -> (deleted: Option<T>) {
        AVLTree::<T>::delete(self, value)
    }

    fn count_leaves(&self) -> (n: u32) {
        AVLTree::<T>::count_leaves(self)
    }

    fn is_empty(&self) -> (b: bool) {
        AVLTree::<T>::is_empty(self)
    }

    fn height(&self) -> (h: u32) {
        AVLTree::<T>::height(self)
    }

    fn in_order_traverse(&self) -> (keys: Vec<T>) {
        AVLTree::<T>::in_order_traverse(self)
    }
}

impl<T: TreeKey> TreeTrait<T, u32> for AVLTree<T> {
    open spec fn top(&self) -> Link<T, u32> {
        self.root
    }

    proof fn lemma_top(&self) {
    }

    fn root(&self) -> (r: &Link<T, u32>) {
        AVLTree::<T>::root(self)
    }

    fn search(&self, value: T) -> (found: bool) {
        AVLTree::<T>::search(self, value)
    }

    open spec fn sound(&self) -> bool {
        AVLTree::<T>::sound(self)
    }

    proof fn lemma_well_formed_is_sound(&self) {
        self.lemma_valid_is_sound();
    }

    fn check_valid(&self) -> (b: bool) {
        AVLTree::<T>::check_valid(self)
    }

    fn check_invariants(&self) -> (b: bool) {
        AVLTree::<T>::check_invariants(self)
    }
}

} // verus!
