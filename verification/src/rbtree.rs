//! Red-black tree: a binary search tree whose nodes are red or black, with a
//! black top, no red node under a red node, and the same number of black
//! nodes on every path from the top down.

use crate::key::{same_key, TreeKey};
use crate::order::{
    is_strictly_increasing, lemma_first_then_rest, lemma_short_increasing, lemma_with_key_alone,
    lemma_with_key_increasing, lemma_with_key_len, lemma_with_key_present, lemma_with_key_step, lemma_without_first,
    lemma_without_key_absent, lemma_without_key_increasing, lemma_without_key_len, lemma_without_key_step,
    strictly_increasing, with_key, without_key,
};
use crate::tree::{
    height_of, keys_of, leaves_of, lemma_height_and_leaves_bounded, rotate, rotated, search_node, side_of, Direction,
    Link, SimpleTreeTrait, TreeNode, TreeTrait,
};
use vstd::prelude::*;

verus! {

/// Color of the nodes in a red-black tree.
#[derive(Clone, Copy, Debug, PartialEq, Eq, Structural)]
pub enum NodeColor {
    Red,
    Black,
}

/// Whether a subtree has a red top. No subtree counts as black.
pub open spec fn red<T>(link: Link<T, NodeColor>) -> bool {
    link matches Some(node) && node.tag == NodeColor::Red
}

/// What a node of the given color adds to the black height: 1 if black.
pub open spec fn black_count(color: NodeColor) -> nat {
    match color {
        NodeColor::Red => 0,
        NodeColor::Black => 1,
    }
}

/// The number of black nodes on the leftmost path from the top of a subtree
/// down, the missing child at its end counted as one black node.
pub open spec fn black_height<T>(link: Link<T, NodeColor>) -> nat
    decreases link,
{
    match link {
        None => 1,
        Some(node) => black_height(node.left) + black_count(node.tag),
    }
}

/// The red-black rules below the top: at every node the two subtrees have
/// the same black height, and no red node has a red child. The color of the
/// top itself is left open.
pub open spec fn rb_shape<T>(link: Link<T, NodeColor>) -> bool
    decreases link,
{
    match link {
        None => true,
        Some(node) => {
            &&& rb_shape(node.left)
            &&& rb_shape(node.right)
            &&& black_height(node.left) == black_height(node.right)
            &&& node.tag == NodeColor::Red ==> !red(node.left) && !red(node.right)
        },
    }
}

/// The red-black rules with one fault allowed: the top may be red and have
/// a red child.
pub open spec fn rb_shape_below_top<T>(link: Link<T, NodeColor>) -> bool {
    match link {
        None => true,
        Some(node) => {
            &&& rb_shape(node.left)
            &&& rb_shape(node.right)
            &&& black_height(node.left) == black_height(node.right)
        },
    }
}

/// No red node has a red child.
pub open spec fn no_red_red<T>(link: Link<T, NodeColor>) -> bool
    decreases link,
{
    match link {
        None => true,
        Some(node) => {
            &&& no_red_red(node.left)
            &&& no_red_red(node.right)
            &&& node.tag == NodeColor::Red ==> !red(node.left) && !red(node.right)
        },
    }
}

/// The black height of a subtree if every path from its top down has the
/// same number of black nodes, a missing child counted as one; `None` if
/// two paths differ.
pub open spec fn color_height<T>(link: Link<T, NodeColor>) -> Option<nat>
    decreases link,
{
    match link {
        None => Some(1),
        Some(node) => match (color_height(node.left), color_height(node.right)) {
            (Some(lh), Some(rh)) => if lh == rh {
                Some(lh + black_count(node.tag))
            } else {
                None
            },
            _ => None,
        },
    }
}

/// The red-black rules below the top are the two checks together: no red
/// node with a red child, and one black height on all paths, which is then
/// the black height.
pub proof fn lemma_shape_is_checks<T>(link: Link<T, NodeColor>)
    ensures
        rb_shape(link) == (no_red_red(link) && color_height(link) is Some),
        color_height(link) matches Some(h) ==> h == black_height(link),
        black_height(link) >= 1,
        black_height(link) <= height_of(link) + 1,
    decreases link,
{
    match link {
        None => {},
        Some(node) => {
            lemma_shape_is_checks(node.left);
            lemma_shape_is_checks(node.right);
        },
    }
}

/// What the definitions say of a single node, one step down.
pub proof fn lemma_rb_node<T>(node: TreeNode<T, NodeColor>)
    ensures
        keys_of(node.as_link()) == keys_of(node.left) + seq![node.value] + keys_of(node.right),
        black_height(node.as_link()) == black_height(node.left) + black_count(node.tag),
        rb_shape(node.as_link()) == {
            &&& rb_shape(node.left)
            &&& rb_shape(node.right)
            &&& black_height(node.left) == black_height(node.right)
            &&& node.tag == NodeColor::Red ==> !red(node.left) && !red(node.right)
        },
        black_height(node.left) >= 1,
        black_height(node.right) >= 1,
{
    lemma_shape_is_checks(node.left);
    lemma_shape_is_checks(node.right);
}

/// `node` in another color.
pub open spec fn recolored<T>(node: TreeNode<T, NodeColor>, color: NodeColor) -> TreeNode<T, NodeColor> {
    TreeNode { tag: color, ..node }
}

impl<T> TreeNode<T, NodeColor> {
    /// A red node without children.
    pub fn new_red(value: T) -> (node: Self)
        ensures
            node == (TreeNode { value, tag: NodeColor::Red, left: None, right: None }),
            rb_shape(node.as_link()),
            black_height(node.as_link()) == 1,
            keys_of(node.as_link()) == seq![value],
    {
        let node = TreeNode::new(value, NodeColor::Red);
        proof {
            reveal_with_fuel(keys_of, 2);
            reveal_with_fuel(black_height, 2);
            reveal_with_fuel(rb_shape, 2);
            assert(keys_of(node.as_link()) =~= seq![value]);
        }
        node
    }

    /// Whether the subtree has a red top; a missing subtree is black.
    pub fn is_red(node: &Link<T, NodeColor>) -> (b: bool)
        ensures
            b == red(*node),
    {
        match node {
            None => false,
            Some(n) => n.tag == NodeColor::Red,
        }
    }

    /// Colors the node red and hands it back.
    pub fn set_red(node: Box<TreeNode<T, NodeColor>>) -> (res: Box<TreeNode<T, NodeColor>>)
        ensures
            *res == recolored(*node, NodeColor::Red),
    {
        let mut node = node;
        node.tag = NodeColor::Red;
        node
    }

    /// Colors the node black and hands it back.
    pub fn set_black(node: Box<TreeNode<T, NodeColor>>) -> (res: Box<TreeNode<T, NodeColor>>)
        ensures
            *res == recolored(*node, NodeColor::Black),
    {
        let mut node = node;
        node.tag = NodeColor::Black;
        node
    }

    /// Whether no red node of the subtree has a red child.
    pub fn check_red_children(&self) -> (b: bool)
        ensures
            b == no_red_red(self.as_link()),
        decreases self,
    {
        let current = match self.tag {
            NodeColor::Red => !Self::is_red(&self.left) && !Self::is_red(&self.right),
            NodeColor::Black => true,
        };
        if !current {
            return false;
        }
        if let Some(l) = &self.left {
            assert(self.left == l.as_link());
            if !l.check_red_children() {
                return false;
            }
        }
        if let Some(r) = &self.right {
            assert(self.right == r.as_link());
            if !r.check_red_children() {
                return false;
            }
        }
        assert(no_red_red(self.left) && no_red_red(self.right));
        true
    }

    /// The black height of `node`, a missing subtree counted as one black
    /// node; `None` where two paths from the top down differ in their
    /// number of black nodes.
    pub fn calculate_black_height(node: &Link<T, NodeColor>) -> (h: Option<u64>)
        requires
            keys_of(*node).len() <= u32::MAX,
        ensures
            match color_height(*node) {
                None => h is None,
                Some(n) => h == Some(n as u64) && n <= u32::MAX + 1,
            },
    {
        match node {
            None => Some(1),
            Some(n) => {
                assert(*node == n.as_link());
                n.check_color()
            },
        }
    }

    /// The black height of the subtree, a missing child counted as one
    /// black node; `None` where two paths from the top down differ in their
    /// number of black nodes.
    pub fn check_color(&self) -> (h: Option<u64>)
        requires
            keys_of(self.as_link()).len() <= u32::MAX,
        ensures
            match color_height(self.as_link()) {
                None => h is None,
                Some(n) => h == Some(n as u64) && n <= u32::MAX + 1,
            },
    {
        proof {
            lemma_shape_is_checks(self.as_link());
            lemma_height_and_leaves_bounded(self.as_link());
        }
        match self.black_levels() {
            None => None,
            Some(levels) => Some(levels as u64 + 1),
        }
    }

    /// The number of black nodes on every path from this node down to a
    /// missing child, the missing child not counted: one less than the
    /// black height. `None` where two paths differ in that number.
    pub fn black_levels(&self) -> (h: Option<usize>)
        requires
            keys_of(self.as_link()).len() <= usize::MAX,
        ensures
            match color_height(self.as_link()) {
                None => h is None,
                Some(n) => n >= 1 && h == Some((n - 1) as usize),
            },
        decreases self,
    {
        proof {
            lemma_shape_is_checks(self.as_link());
            lemma_shape_is_checks(self.left);
            lemma_shape_is_checks(self.right);
            lemma_height_and_leaves_bounded(self.as_link());
        }
        let left_levels: Option<usize> = match &self.left {
            Some(ln) => {
                assert(self.left == ln.as_link());
                ln.black_levels()
            },
            None => Some(0),
        };
        let right_levels: Option<usize> = match &self.right {
            Some(rn) => {
                assert(self.right == rn.as_link());
                rn.black_levels()
            },
            None => Some(0),
        };
        assert(left_levels is None <==> color_height(self.left) is None);
        assert(right_levels is None <==> color_height(self.right) is None);
        match (left_levels, right_levels) {
            (Some(lh), Some(rh)) => {
                if lh != rh {
                    return None;
                }
                match self.tag {
                    NodeColor::Red => Some(lh),
                    NodeColor::Black => Some(lh + 1),
                }
            },
            _ => None,
        }
    }
}

/// What mending after an insertion makes of `grand`, below whose child on
/// side `parent_dir` a key was inserted. Nothing changes unless `grand` is
/// black and that child is red with a red child of its own. Then, with a
/// red uncle, the child and the uncle turn black and `grand` red; with a
/// black uncle, a red grandchild on the inner side is first rotated up
/// over the child, then the child is rotated up over `grand`, turns black,
/// and `grand` turns red.
pub open spec fn mended_after_insert<T>(grand: TreeNode<T, NodeColor>, parent_dir: Direction) -> TreeNode<
    T,
    NodeColor,
> {
    let uncle_dir = parent_dir.flipped();
    if grand.tag == NodeColor::Red || !red(grand.child_at(parent_dir)) {
        grand
    } else {
        let parent = *grand.child_at(parent_dir).unwrap();
        if !red(parent.child_at(parent_dir)) && !red(parent.child_at(uncle_dir)) {
            grand
        } else if red(grand.child_at(uncle_dir)) {
            let uncle = *grand.child_at(uncle_dir).unwrap();
            recolored(grand, NodeColor::Red).with_child_at(
                parent_dir,
                recolored(parent, NodeColor::Black).as_link(),
            ).with_child_at(uncle_dir, recolored(uncle, NodeColor::Black).as_link())
        } else {
            let straight = if red(parent.child_at(uncle_dir)) {
                grand.with_child_at(parent_dir, rotated(parent, uncle_dir).as_link())
            } else {
                grand
            };
            let top = rotated(straight, parent_dir);
            let lowered = recolored(*top.child_at(uncle_dir).unwrap(), NodeColor::Red);
            recolored(top, NodeColor::Black).with_child_at(uncle_dir, lowered.as_link())
        }
    }
}

/// Restores the red-black rules at `grand` after an insertion below its
/// child on side `parent_dir`. There is something to do where `grand` is
/// black and that child is red with a red child of its own. With a red
/// uncle the child and the uncle turn black and `grand` red. With a black
/// uncle the red grandchild is first brought to the outer side, if it is on
/// the inner one, by a rotation at the child; then `grand` is rotated with
/// the child, which comes to the top and turns black, and `grand` turns red.
pub fn insert_recolor<T>(grand: Box<TreeNode<T, NodeColor>>, parent_dir: Direction) -> (top: Box<
    TreeNode<T, NodeColor>,
>)
    requires
        rb_shape(grand.child_at(parent_dir.flipped())),
        rb_shape_below_top(grand.child_at(parent_dir)),
        black_height(grand.left) == black_height(grand.right),
        grand.tag == NodeColor::Red ==> rb_shape(grand.child_at(parent_dir)),
        grand.child_at(parent_dir) matches Some(parent) ==> parent.tag == NodeColor::Red ==> !(red(parent.left)
            && red(parent.right)),
    ensures
        *top == mended_after_insert(*grand, parent_dir),
        keys_of(Some(top)) == keys_of(Some(grand)),
        black_height(Some(top)) == black_height(Some(grand)),
        grand.tag == NodeColor::Black ==> rb_shape(Some(top)),
        grand.tag == NodeColor::Red ==> *top == *grand,
{
    let uncle_dir = parent_dir.opposite();
    proof {
        lemma_rb_node(*grand);
    }
    if grand.tag == NodeColor::Red || !TreeNode::is_red(grand.child(parent_dir)) {
        return grand;
    }
    let parent_ref = grand.child(parent_dir).as_ref().unwrap();
    proof {
        lemma_rb_node(**parent_ref);
    }
    let outer_red = TreeNode::is_red(parent_ref.child(parent_dir));
    let inner_red = TreeNode::is_red(parent_ref.child(uncle_dir));
    if !outer_red && !inner_red {
        return grand;
    }
    let mut grand = grand;
    let ghost before = *grand;
    if TreeNode::is_red(grand.child(uncle_dir)) {
        let parent = TreeNode::set_black(grand.take_child(parent_dir).unwrap());
        let uncle = TreeNode::set_black(grand.take_child(uncle_dir).unwrap());
        proof {
            lemma_rb_node(*before.child_at(uncle_dir).unwrap());
            lemma_rb_node(*parent);
            lemma_rb_node(*uncle);
        }
        grand.set_child(parent_dir, Some(parent));
        grand.set_child(uncle_dir, Some(uncle));
        grand.tag = NodeColor::Red;
        proof {
            lemma_rb_node(*grand);
        }
        return grand;
    }
    if inner_red {
        let parent = grand.take_child(parent_dir).unwrap();
        proof {
            lemma_rb_node(*parent.child_at(uncle_dir).unwrap());
        }
        let parent = rotate(parent, uncle_dir);
        proof {
            lemma_rb_node(*parent);
            lemma_rb_node(*parent.child_at(parent_dir).unwrap());
        }
        grand.set_child(parent_dir, Some(parent));
        proof {
            lemma_rb_node(*grand);
        }
    }
    let ghost straight = *grand;
    proof {
        lemma_rb_node(*straight.child_at(parent_dir).unwrap());
    }
    let mut top = TreeNode::set_black(rotate(grand, parent_dir));
    let low = TreeNode::set_red(top.take_child(uncle_dir).unwrap());
    proof {
        lemma_rb_node(*low);
    }
    top.set_child(uncle_dir, Some(low));
    proof {
        lemma_rb_node(*top);
        lemma_rb_node(rotated(straight, parent_dir));
        lemma_rb_node(*rotated(straight, parent_dir).child_at(uncle_dir).unwrap());
    }
    top
}

/// The subtree that an insertion of `value` makes of `node`: `node` itself
/// where it holds `value`; otherwise `node` with the insertion made on the
/// side where `value` belongs, as a red node of its own where there is no
/// subtree, and mended.
pub open spec fn after_insert<T: TreeKey>(node: TreeNode<T, NodeColor>, value: T) -> TreeNode<T, NodeColor>
    decreases node,
{
    if value.rank() == node.value.rank() {
        node
    } else {
        let dir = side_of(node.value, value);
        let child = match node.child_at(dir) {
            None => TreeNode { value, tag: NodeColor::Red, left: None, right: None },
            Some(below) => after_insert(*below, value),
        };
        mended_after_insert(node.with_child_at(dir, child.as_link()), dir)
    }
}

/// Puts `value` into the tree that starts at `node` and hands back the top
/// to store: the tree with `value` in it as a red node where its search
/// ends, mended at every node on the way back up, and with its top turned
/// black. Returns the top and whether `value` was new; where it was not,
/// nothing but the color of the top can have changed.
pub fn insert_node<T: TreeKey>(node: Box<TreeNode<T, NodeColor>>, value: T) -> (res: (
    Box<TreeNode<T, NodeColor>>,
    bool,
))
    requires
        rb_shape(Some(node)),
        strictly_increasing(keys_of(Some(node))),
    ensures
        *res.0 == recolored(after_insert(*node, value), NodeColor::Black),
        res.0.tag == NodeColor::Black,
        rb_shape(Some(res.0)),
        keys_of(Some(res.0)) == with_key(keys_of(Some(node)), value),
        res.1 == !keys_of(Some(node)).contains(value),
        !res.1 ==> *res.0 == recolored(*node, NodeColor::Black),
        !res.1 && node.tag == NodeColor::Black ==> *res.0 == *node,
{
    let (top, inserted) = insert_below(node, value);
    proof {
        lemma_rb_node(*top);
    }
    let top = TreeNode::set_black(top);
    proof {
        lemma_rb_node(*top);
    }
    (top, inserted)
}

/// Puts `value` into the subtree, as a red node where its search ends, and
/// restores the red-black rules at every node on the way back up, but for
/// the top, which may come out red, and under a red top one child may.
/// Returns the subtree and whether `value` was new; where it was not, the
/// subtree is as it was.
pub fn insert_below<T: TreeKey>(node: Box<TreeNode<T, NodeColor>>, value: T) -> (res: (
    Box<TreeNode<T, NodeColor>>,
    bool,
))
    requires
        rb_shape(Some(node)),
        strictly_increasing(keys_of(Some(node))),
    ensures
        *res.0 == after_insert(*node, value),
        keys_of(Some(res.0)) == with_key(keys_of(Some(node)), value),
        res.1 == !keys_of(Some(node)).contains(value),
        !res.1 ==> *res.0 == *node,
        black_height(Some(res.0)) == black_height(Some(node)),
        rb_shape_below_top(Some(res.0)),
        node.tag == NodeColor::Black ==> rb_shape(Some(res.0)),
        node.tag == NodeColor::Red ==> res.0.tag == NodeColor::Red && !(red(res.0.left) && red(res.0.right)),
    decreases node,
{
    let mut node = node;
    let ghost before = *node;
    proof {
        lemma_rb_node(*node);
        lemma_with_key_step(keys_of(node.left), node.value, keys_of(node.right), value);
    }
    if same_key(&node.value, &value) {
        proof {
            lemma_with_key_present(keys_of(Some(node)), value);
        }
        return (node, false);
    }
    let dir = if value.less_than(&node.value) {
        Direction::Left
    } else {
        Direction::Right
    };
    let inserted = match node.take_child(dir) {
        Some(child) => {
            let (new_child, inserted) = insert_below(child, value);
            node.set_child(dir, Some(new_child));
            inserted
        },
        None => {
            proof {
                lemma_with_key_alone(value);
            }
            node.set_child(dir, Some(Box::new(TreeNode::new_red(value))));
            true
        },
    };
    proof {
        lemma_rb_node(*node);
        if let Some(c) = node.child_at(dir) {
            lemma_rb_node(*c);
        }
        if let Some(c) = before.child_at(dir) {
            lemma_rb_node(*c);
        }
    }
    if !inserted {
        return (node, false);
    }
    (insert_recolor(node, dir), true)
}

/// What mending after a deletion makes of `parent`, whose subtree on side
/// `dir` is one black node short and whose sibling subtree has a black top:
/// the mended subtree, and whether it is one black node short as a whole.
/// With two black nephews the sibling turns red and `parent` black. With a
/// red nephew on the near side, that nephew is first rotated up over the
/// sibling and the two swap colors. Then the far nephew turns black, the
/// sibling takes the color of `parent`, `parent` turns black, and the
/// sibling is rotated up over `parent`.
pub open spec fn mended_by_black_sibling<T>(parent: TreeNode<T, NodeColor>, dir: Direction) -> (
    TreeNode<T, NodeColor>,
    bool,
) {
    let sib_dir = dir.flipped();
    let sibling = *parent.child_at(sib_dir).unwrap();
    if !red(sibling.child_at(dir)) && !red(sibling.child_at(sib_dir)) {
        let faded = recolored(sibling, NodeColor::Red);
        (
            recolored(parent, NodeColor::Black).with_child_at(sib_dir, faded.as_link()),
            parent.tag == NodeColor::Black,
        )
    } else {
        let straight = if red(sibling.child_at(dir)) {
            let up = rotated(sibling, dir);
            let lowered = recolored(*up.child_at(sib_dir).unwrap(), NodeColor::Red);
            recolored(up, NodeColor::Black).with_child_at(sib_dir, lowered.as_link())
        } else {
            sibling
        };
        let far = recolored(*straight.child_at(sib_dir).unwrap(), NodeColor::Black);
        let risen = recolored(straight, parent.tag).with_child_at(sib_dir, far.as_link());
        (rotated(recolored(parent, NodeColor::Black).with_child_at(sib_dir, risen.as_link()), sib_dir), false)
    }
}

/// What mending after a deletion makes of `parent`, whose subtree on side
/// `dir` is one black node short. A red sibling turns black, `parent` red,
/// and the sibling is rotated up over `parent`, which is then mended with
/// its new, black sibling. A black sibling mends as `mended_by_black_sibling`
/// says.
pub open spec fn mended_after_delete<T>(parent: TreeNode<T, NodeColor>, dir: Direction) -> (
    TreeNode<T, NodeColor>,
    bool,
) {
    let sib_dir = dir.flipped();
    let sibling = *parent.child_at(sib_dir).unwrap();
    if sibling.tag == NodeColor::Red {
        let top = rotated(
            recolored(parent, NodeColor::Red).with_child_at(sib_dir, recolored(sibling, NodeColor::Black).as_link()),
            sib_dir,
        );
        let lowered = mended_by_black_sibling(*top.child_at(dir).unwrap(), dir).0;
        (top.with_child_at(dir, lowered.as_link()), false)
    } else {
        mended_by_black_sibling(parent, dir)
    }
}

/// Restores the red-black rules at `parent` after a deletion has left its
/// subtree on side `dir` one black node short. Returns the subtree and
/// whether it is now one black node short as a whole.
///
/// A red sibling turns black, `parent` red, and `parent` is rotated with
/// the sibling; the shortage is then mended below, at `parent`, which has a
/// black sibling now. With a black sibling whose children are both black
/// the sibling turns red, and `parent` turns black if it was red, or else
/// is short itself. A red child of the sibling on the near side is rotated
/// up over the sibling and the two swap colors. A red child on the far side
/// turns black, the sibling takes the color of `parent`, `parent` turns
/// black and is rotated with the sibling.
pub fn delete_rebalance_helper<T>(parent: Box<TreeNode<T, NodeColor>>, dir: Direction) -> (res: (
    Box<TreeNode<T, NodeColor>>,
    bool,
))
    requires
        rb_shape(parent.child_at(dir)),
        rb_shape(parent.child_at(dir.flipped())),
        black_height(parent.child_at(dir)) + 1 == black_height(parent.child_at(dir.flipped())),
        !red(parent.child_at(dir)),
        parent.tag == NodeColor::Red ==> !red(parent.child_at(dir.flipped())),
    ensures
        (*res.0, res.1) == mended_after_delete(*parent, dir),
        rb_shape(Some(res.0)),
        keys_of(Some(res.0)) == keys_of(Some(parent)),
        black_height(Some(res.0)) + (if res.1 { 1nat } else { 0nat }) == black_height(
            parent.child_at(dir.flipped()),
        ) + black_count(parent.tag),
        res.0.tag == NodeColor::Red ==> parent.tag == NodeColor::Red,
        res.1 ==> parent.tag == NodeColor::Black,
    decreases (if red(parent.child_at(dir.flipped())) { 1int } else { 0int }),
{
    let sib_dir = dir.opposite();
    let ghost before = *parent;
    proof {
        lemma_rb_node(before);
        lemma_rb_node(*before.child_at(sib_dir).unwrap());
    }
    let mut parent = parent;
    let mut sibling = parent.take_child(sib_dir).unwrap();
    if sibling.tag == NodeColor::Red {
        sibling.tag = NodeColor::Black;
        parent.tag = NodeColor::Red;
        parent.set_child(sib_dir, Some(sibling));
        proof {
            lemma_rb_node(*parent);
            lemma_rb_node(*sibling);
        }
        let mut top = rotate(parent, sib_dir);
        let low = top.take_child(dir).unwrap();
        proof {
            lemma_rb_node(*low);
        }
        let (fixed, _short) = delete_rebalance_helper(low, dir);
        top.set_child(dir, Some(fixed));
        proof {
            lemma_rb_node(*top);
            lemma_rb_node(rotated(*parent, sib_dir));
        }
        return (top, false);
    }
    let near_red = TreeNode::is_red(sibling.child(dir));
    let far_red = TreeNode::is_red(sibling.child(sib_dir));
    if !near_red && !far_red {
        sibling.tag = NodeColor::Red;
        proof {
            lemma_rb_node(*sibling);
        }
        parent.set_child(sib_dir, Some(sibling));
        let short = match parent.tag {
            NodeColor::Black => true,
            NodeColor::Red => {
                parent.tag = NodeColor::Black;
                false
            },
        };
        proof {
            lemma_rb_node(*parent);
        }
        return (parent, short);
    }
    if near_red {
        proof {
            lemma_rb_node(*sibling.child_at(dir).unwrap());
        }
        let ghost bent = *sibling;
        let mut up = TreeNode::set_black(rotate(sibling, dir));
        let low = TreeNode::set_red(up.take_child(sib_dir).unwrap());
        proof {
            lemma_rb_node(*low);
        }
        up.set_child(sib_dir, Some(low));
        proof {
            lemma_rb_node(*up);
            lemma_rb_node(rotated(bent, dir));
            lemma_rb_node(*rotated(bent, dir).child_at(sib_dir).unwrap());
        }
        sibling = up;
    }
    let ghost straight = *sibling;
    proof {
        lemma_rb_node(straight);
        lemma_rb_node(*straight.child_at(sib_dir).unwrap());
    }
    let far = TreeNode::set_black(sibling.take_child(sib_dir).unwrap());
    proof {
        lemma_rb_node(*far);
    }
    sibling.set_child(sib_dir, Some(far));
    sibling.tag = parent.tag;
    parent.tag = NodeColor::Black;
    proof {
        lemma_rb_node(*sibling);
    }
    parent.set_child(sib_dir, Some(sibling));
    proof {
        lemma_rb_node(*parent);
    }
    let top = rotate(parent, sib_dir);
    proof {
        lemma_rb_node(*top);
        lemma_rb_node(*top.child_at(dir).unwrap());
    }
    (top, false)
}

/// `node` as it is, or mended on side `dir` where that side is one black
/// node short; and whether the subtree is then short as a whole.
pub open spec fn mended_if_short<T>(node: TreeNode<T, NodeColor>, dir: Direction, short: bool) -> (
    Link<T, NodeColor>,
    bool,
) {
    if short {
        let mended = mended_after_delete(node, dir);
        (mended.0.as_link(), mended.1)
    } else {
        (node.as_link(), false)
    }
}

/// The subtree that a deletion of `value` makes of `link`, and whether it
/// is one black node short: the top with the deletion made on the side
/// where `value` belongs, mended if that side came out short; or, where the
/// top holds `value`, what `after_delete_top` says.
pub open spec fn after_delete<T: TreeKey>(link: Link<T, NodeColor>, value: T) -> (Link<T, NodeColor>, bool)
    decreases link, 1int,
{
    match link {
        None => (None, false),
        Some(node) => if value.rank() == node.value.rank() {
            after_delete_top(*node)
        } else {
            let dir = side_of(node.value, value);
            let below = after_delete(node.child_at(dir), value);
            mended_if_short(node.with_child_at(dir, below.0), dir, below.1)
        },
    }
}

/// The subtree that is left when the key at the top of `node` is deleted,
/// and whether it is one black node short. With two children, `node` takes
/// the first key of its right subtree in place of its own, that key is
/// deleted from the right subtree, and `node` is mended if need be. An only
/// child takes the place of `node` and turns black. Without children
/// nothing is left, one black node short if `node` was black.
pub open spec fn after_delete_top<T: TreeKey>(node: TreeNode<T, NodeColor>) -> (Link<T, NodeColor>, bool)
    decreases node, 0int,
{
    if node.left is Some && node.right is Some {
        let least = keys_of(node.right)[0];
        let below = after_delete(node.right, least);
        mended_if_short(TreeNode { value: least, right: below.0, ..node }, Direction::Right, below.1)
    } else {
        match if node.right is Some { node.right } else { node.left } {
            None => (None, node.tag == NodeColor::Black),
            Some(child) => (recolored(*child, NodeColor::Black).as_link(), false),
        }
    }
}

/// Takes `value` out of the subtree, if it is there, and restores the
/// red-black rules at every node on the way back up. Returns the subtree,
/// the key taken out, and whether the subtree is now one black node short.
pub fn delete_node<T: TreeKey>(link: Link<T, NodeColor>, value: T) -> (res: (
    Link<T, NodeColor>,
    Option<T>,
    bool,
))
    requires
        rb_shape(link),
        strictly_increasing(keys_of(link)),
    ensures
        (res.0, res.2) == after_delete(link, value),
        rb_shape(res.0),
        keys_of(res.0) == without_key(keys_of(link), value),
        res.1 == if keys_of(link).contains(value) { Some(value) } else { None },
        res.1 is None ==> res.0 == link && !res.2,
        black_height(res.0) + (if res.2 { 1nat } else { 0nat }) == black_height(link),
        red(res.0) ==> red(link),
        res.2 ==> !red(link),
    decreases link, 1int,
{
    match link {
        None => {
            proof {
                lemma_without_key_absent(keys_of(link), value);
            }
            (None, None, false)
        },
        Some(node) => {
            let mut node = node;
            proof {
                lemma_rb_node(*node);
                lemma_without_key_step(keys_of(node.left), node.value, keys_of(node.right), value);
            }
            let dir = if value.less_than(&node.value) {
                Direction::Left
            } else if node.value.less_than(&value) {
                Direction::Right
            } else {
                let (rest, short) = delete_top(node);
                return (rest, Some(value), short);
            };
            let child = node.take_child(dir);
            let (new_child, deleted, short) = delete_node(child, value);
            node.set_child(dir, new_child);
            proof {
                lemma_rb_node(*node);
            }
            if short {
                let (fixed, still_short) = delete_rebalance_helper(node, dir);
                (Some(fixed), deleted, still_short)
            } else {
                (Some(node), deleted, false)
            }
        },
    }
}

/// Takes the key at the top of a subtree out of it. With two children the
/// top node stays and takes over the least key of its right subtree, whose
/// node goes instead. A red node without children just goes; a black one
/// leaves the subtree one black node short. The red only child of a black
/// node takes its place and turns black.
pub fn delete_top<T: TreeKey>(node: Box<TreeNode<T, NodeColor>>) -> (res: (Link<T, NodeColor>, bool))
    requires
        rb_shape(Some(node)),
        strictly_increasing(keys_of(Some(node))),
    ensures
        res == after_delete_top(*node),
        rb_shape(res.0),
        keys_of(res.0) == keys_of(node.left) + keys_of(node.right),
        black_height(res.0) + (if res.1 { 1nat } else { 0nat }) == black_height(Some(node)),
        red(res.0) ==> node.tag == NodeColor::Red,
        res.1 ==> node.tag == NodeColor::Black,
    decreases node, 0int,
{
    let mut node = node;
    proof {
        lemma_rb_node(*node);
    }
    if node.left.is_some() && node.right.is_some() {
        let right = node.right.take();
        let ghost right_keys = keys_of(right);
        assert(right == right.unwrap().as_link());
        let right_min = right.as_ref().unwrap().get_min();
        proof {
            lemma_without_key_step(keys_of(node.left), node.value, right_keys, right_min);
            lemma_without_first(right_keys);
            lemma_first_then_rest(keys_of(node.left), right_keys);
        }
        let (new_right, _v, short) = delete_node(right, right_min);
        node.right = new_right;
        node.value = right_min;
        proof {
            lemma_rb_node(*node);
        }
        if short {
            let (fixed, still_short) = delete_rebalance_helper(node, Direction::Right);
            (Some(fixed), still_short)
        } else {
            (Some(node), false)
        }
    } else {
        proof {
            reveal_with_fuel(black_height, 2);
            if node.left is Some {
                lemma_rb_node(*node.left.unwrap());
            }
            if node.right is Some {
                lemma_rb_node(*node.right.unwrap());
            }
        }
        let was_black = node.tag == NodeColor::Black;
        match TreeNode::delete_node(node) {
            None => (None, was_black),
            Some(child) => {
                let child = TreeNode::set_black(child);
                proof {
                    lemma_rb_node(*child);
                }
                (Some(child), false)
            },
        }
    }
}

/// A red-black tree of keys of type `T`.
#[derive(Debug)]
pub struct RedBlackTree<T> {
    pub root: Link<T, NodeColor>,
}

impl<T> View for RedBlackTree<T> {
    type V = Seq<T>;

    /// The keys of the tree in ascending order.
    open spec fn view(&self) -> Seq<T> {
        keys_of(self.root)
    }
}

impl<T: TreeKey> RedBlackTree<T> {
    /// What insertion and deletion rely on and keep: the keys ascend, the
    /// top is black, no red node has a red child, all paths from the top
    /// down hold the same number of black nodes, and the number of keys
    /// fits the `u32` that heights and leaf counts are given in.
    pub open spec fn valid(&self) -> bool {
        &&& strictly_increasing(self@)
        &&& !red(self.root)
        &&& rb_shape(self.root)
        &&& self@.len() <= u32::MAX
    }

    /// The tree is empty, or its top is black, its keys ascend, no red node
    /// has a red child, and all paths from the top down hold the same
    /// number of black nodes. Nothing is asked of the number of keys.
    pub open spec fn sound(&self) -> bool {
        self.root is None || (!red(self.root) && strictly_increasing(self@) && rb_shape(self.root))
    }

    /// A valid tree is sound.
    pub proof fn lemma_valid_is_sound(&self)
        requires
            self.valid(),
        ensures
            self.sound(),
    {
    }

    /// An empty tree.
    pub fn new() -> (tree: Self)
        ensures
            tree.valid(),
            tree.sound(),
            tree.root is None,
            tree@ == Seq::<T>::empty(),
    {
        proof {
            lemma_short_increasing(Seq::<T>::empty());
        }
        RedBlackTree { root: None }
    }

    /// The top node of the tree, if there is one.
    pub fn root(&self) -> (r: &Link<T, NodeColor>)
        ensures
            *r == self.root,
    {
        &self.root
    }

    /// Takes `value` out of the tree. Returns the key taken out, or `None`
    /// where the tree does not hold `value`; the tree is then unchanged.
    pub fn delete(&mut self, value: T) -> (deleted: Option<T>)
        requires
            old(self).valid(),
        ensures
            final(self).valid(),
            final(self).sound(),
            strictly_increasing(final(self)@),
            deleted == if old(self)@.contains(value) { Some(value) } else { None },
            final(self)@ == without_key(old(self)@, value),
            final(self)@.len() == old(self)@.len() - if deleted is Some { 1int } else { 0int },
            !final(self)@.contains(value),
            deleted is None ==> *final(self) == *old(self),
            deleted is Some ==> final(self).root == after_delete(old(self).root, value).0,
    {
        let node = search_node(&self.root, value);
        if node.is_none() {
            proof {
                lemma_without_key_absent(self@, value);
            }
            return None;
        }
        let root = self.root.take();
        let (new_root, _deleted, _short) = delete_node(root, value);
        self.root = new_root;
        proof {
            lemma_without_key_increasing(old(self)@, value);
            lemma_without_key_len(old(self)@, value);
        }
        Some(value)
    }

    /// Puts `value` into the tree. Returns `false` where the tree already
    /// holds `value`; the tree is then unchanged. There must be room for a
    /// new key: a tree holds at most `u32::MAX` keys.
    pub fn insert(&mut self, value: T) -> (inserted: bool)
        requires
            old(self).valid(),
            old(self)@.len() < u32::MAX || old(self)@.contains(value),
        ensures
            final(self).valid(),
            final(self).sound(),
            strictly_increasing(final(self)@),
            final(self).root is Some,
            !red(final(self).root),
            inserted == !old(self)@.contains(value),
            final(self)@ == with_key(old(self)@, value),
            final(self)@.len() == old(self)@.len() + if inserted { 1int } else { 0int },
            final(self)@.contains(value),
            !inserted ==> *final(self) == *old(self),
            inserted ==> final(self).root == match old(self).root {
                None => (TreeNode { value, tag: NodeColor::Black, left: None, right: None }).as_link(),
                Some(root) => recolored(after_insert(*root, value), NodeColor::Black).as_link(),
            },
    {
        match self.root.take() {
            Some(root) => {
                let (new_root, inserted) = insert_node(root, value);
                proof {
                    lemma_with_key_increasing(old(self)@, value);
                    lemma_with_key_len(old(self)@, value);
                }
                self.root = Some(new_root);
                inserted
            },
            None => {
                let new_node = TreeNode::set_black(Box::new(TreeNode::new_red(value)));
                proof {
                    lemma_rb_node(*new_node);
                    lemma_with_key_alone(value);
                    lemma_short_increasing(seq![value]);
                    assert(seq![value][0] == value);
                }
                self.root = Some(new_node);
                true
            },
        }
    }

    /// Whether the tree holds `value`.
    pub fn search(&self, value: T) -> (found: bool)
        requires
            self.valid(),
        ensures
            found == self@.contains(value),
    {
        search_node(&self.root, value).is_some()
    }

    /// Whether every path from the top down holds the same number of black
    /// nodes.
    pub fn check_color(&self) -> (b: bool)
        ensures
            b == (color_height(self.root) is Some),
    {
        Self::is_valid_red_black_tree(&self.root)
    }

    /// Whether every path from the top of `root` down holds the same number
    /// of black nodes.
    pub fn is_valid_red_black_tree(root: &Link<T, NodeColor>) -> (b: bool)
        ensures
            b == (color_height(*root) is Some),
    {
        match root {
            None => true,
            Some(node) => {
                assert(*root == node.as_link());
                // The keys fit a vector, so their number bounds the count.
                let mut keys = Vec::<T>::new();
                node.inorder(&mut keys);
                assert(keys_of(*root).len() == keys.len());
                node.black_levels().is_some()
            },
        }
    }

    /// Checks the whole tree anew: whether it is empty, or its top is black,
    /// its keys ascend, no red node has a red child, and all paths from the
    /// top down hold the same number of black nodes.
    pub fn check_valid(&self) -> (b: bool)
        ensures
            b == self.sound(),
    {
        proof {
            lemma_shape_is_checks(self.root);
        }
        match &self.root {
            None => true,
            Some(root_nd) => {
                assert(self.root == root_nd.as_link());
                if root_nd.tag != NodeColor::Black {
                    return false;
                }
                let vec = self.in_order_traverse();
                if !is_strictly_increasing(&vec) {
                    return false;
                }
                if !root_nd.check_red_children() {
                    return false;
                }
                assert(self@.len() == vec.len());
                root_nd.black_levels().is_some()
            },
        }
    }

    /// Checks the whole tree anew for all that insertion and deletion rely
    /// on: what `check_valid` checks, and the number of keys.
    pub fn check_invariants(&self) -> (b: bool)
        ensures
            b == self.valid(),
    {
        proof {
            lemma_short_increasing(Seq::<T>::empty());
        }
        let vec = self.in_order_traverse();
        if vec.len() > u32::MAX as usize {
            return false;
        }
        self.check_valid()
    }

    /// Whether the tree holds no key.
    pub fn is_empty(&self) -> (b: bool)
        ensures
            b == (self.root is None),
            b == (self@.len() == 0),
    {
        self.root.is_none()
    }

    /// The number of nodes without children, 0 for an empty tree.
    pub fn count_leaves(&self) -> (n: u32)
        requires
            self@.len() <= u32::MAX,
        ensures
            n == leaves_of(self.root),
    {
        match &self.root {
            None => 0,
            Some(r) => {
                proof {
                    lemma_height_and_leaves_bounded(self.root);
                }
                assert(self.root == r.as_link());
                r.count_leaves()
            },
        }
    }

    /// The height of the tree: the number of nodes on its longest path from
    /// the top down, 0 for an empty tree.
    pub fn height(&self) -> (h: u32)
        requires
            self@.len() <= u32::MAX,
        ensures
            h == height_of(self.root),
    {
        match &self.root {
            None => 0,
            Some(r) => {
                proof {
                    lemma_height_and_leaves_bounded(self.root);
                }
                assert(self.root == r.as_link());
                r.get_height()
            },
        }
    }

    /// The keys of the tree in ascending order.
    pub fn in_order_traverse(&self) -> (keys: Vec<T>)
        ensures
            keys@ == self@,
            self.valid() ==> strictly_increasing(keys@),
    {
        let mut result = Vec::<T>::new();
        if let Some(r) = &self.root {
            assert(self.root == r.as_link());
            r.inorder(&mut result);
        }
        assert(result@ =~= self@);
        result
    }
}

impl<T: TreeKey> SimpleTreeTrait<T> for RedBlackTree<T> {
    open spec fn keys(&self) -> Seq<T> {
        self@
    }

    open spec fn well_formed(&self) -> bool {
        self.valid()
    }

    proof fn lemma_well_formed_ascends(&self) {
    }

    open spec fn nodes_high(&self) -> nat {
        height_of(self.root)
    }

    open spec fn leaf_nodes(&self) -> nat {
        leaves_of(self.root)
    }

    fn insert(&mut self, value: T) -> (inserted: bool) {
        RedBlackTree::<T>::insert(self, value)
    }

    fn delete(&mut self, value: T) -> (deleted: Option<T>) {
        RedBlackTree::<T>::delete(self, value)
    }

    fn count_leaves(&self) -> (n: u32) {
        RedBlackTree::<T>::count_leaves(self)
    }

    fn is_empty(&self) -> (b: bool) {
        RedBlackTree::<T>::is_empty(self)
    }

    fn height(&self) -> (h: u32) {
        RedBlackTree::<T>::height(self)
    }

    fn in_order_traverse(&self) -> (keys: Vec<T>) {
        RedBlackTree::<T>::in_order_traverse(self)
    }
}

impl<T: TreeKey> TreeTrait<T, NodeColor> for RedBlackTree<T> {
    open spec fn top(&self) -> Link<T, NodeColor> {
        self.root
    }

    proof fn lemma_top(&self) {
    }

    fn root(&self) -> (r: &Link<T, NodeColor>) {
        RedBlackTree::<T>::root(self)
    }

    fn search(&self, value: T) -> (found: bool) {
        RedBlackTree::<T>::search(self, value)
    }

    open spec fn sound(&self) -> bool {
        RedBlackTree::<T>::sound(self)
    }

    proof fn lemma_well_formed_is_sound(&self) {
    }

    fn check_valid(&self) -> (b: bool) {
        RedBlackTree::<T>::check_valid(self)
    }

    fn check_invariants(&self) -> (b: bool) {
        RedBlackTree::<T>::check_invariants(self)
    }
}

} // verus!
