//! The node type and the operations that both trees share.

use crate::key::TreeKey;
use crate::order::{lemma_contains_by_side, lemma_increasing_around, strictly_increasing, with_key, without_key};
use vstd::prelude::*;

verus! {

/// The side of a parent on which a child hangs.
#[derive(Clone, Copy, Debug, PartialEq, Eq, Structural)]
pub enum Direction {
    Left,
    Right,
}

impl Direction {
    /// The other side.
    pub fn opposite(&self) -> (d: Direction)
        ensures
            d == self.flipped(),
    {
        match self {
            Direction::Left => Direction::Right,
            Direction::Right => Direction::Left,
        }
    }

    /// The other side, for use in contracts.
    pub open spec fn flipped(self) -> Direction {
        match self {
            Direction::Left => Direction::Right,
            Direction::Right => Direction::Left,
        }
    }

    /// Whether this is `Direction::Left`.
    pub fn is_left(&self) -> (b: bool)
        ensures
            b == (*self == Direction::Left),
    {
        match self {
            Direction::Left => true,
            Direction::Right => false,
        }
    }
}

/// A node of a binary tree: a key, the two subtrees below it, and the tag
/// that the balancing scheme keeps on every node (a cached height, a color).
#[derive(Debug)]
pub struct TreeNode<T, A> {
    pub value: T,
    pub tag: A,
    pub left: Option<Box<TreeNode<T, A>>>,
    pub right: Option<Box<TreeNode<T, A>>>,
}

/// A subtree, or none.
pub type Link<T, A> = Option<Box<TreeNode<T, A>>>;

/// The keys of a subtree from left to right.
pub open spec fn keys_of<T, A>(link: Link<T, A>) -> Seq<T>
    decreases link,
{
    match link {
        None => Seq::empty(),
        Some(node) => keys_of(node.left) + seq![node.value] + keys_of(node.right),
    }
}

/// The number of nodes on the longest path from the top of a subtree down.
pub open spec fn height_of<T, A>(link: Link<T, A>) -> nat
    decreases link,
{
    match link {
        None => 0,
        Some(node) => {
            let l = height_of(node.left);
            let r = height_of(node.right);
            if l >= r {
                l + 1
            } else {
                r + 1
            }
        },
    }
}

/// The number of nodes without children in a subtree.
pub open spec fn leaves_of<T, A>(link: Link<T, A>) -> nat
    decreases link,
{
    match link {
        None => 0,
        Some(node) => if node.left is None && node.right is None {
            1
        } else {
            leaves_of(node.left) + leaves_of(node.right)
        },
    }
}

/// Whether the search for `value` that starts at the top of `link` passes
/// through a node equal to `node`.
pub open spec fn on_search_path<T: TreeKey, A>(link: Link<T, A>, value: T, node: TreeNode<T, A>) -> bool
    decreases link,
{
    match link {
        None => false,
        Some(top) => {
            ||| *top == node
            ||| value.rank() < top.value.rank() && on_search_path(top.left, value, node)
            ||| top.value.rank() < value.rank() && on_search_path(top.right, value, node)
        },
    }
}

/// At every node of the subtree the heights of the two subtrees below it
/// differ by less than two.
pub open spec fn balanced<T, A>(link: Link<T, A>) -> bool
    decreases link,
{
    match link {
        None => true,
        Some(node) => {
            &&& balanced(node.left)
            &&& balanced(node.right)
            &&& height_of(node.left) < height_of(node.right) + 2
            &&& height_of(node.right) < height_of(node.left) + 2
        },
    }
}

/// Whether `node` is one of the nodes of the subtree.
pub open spec fn has_node<T, A>(link: Link<T, A>, node: TreeNode<T, A>) -> bool
    decreases link,
{
    match link {
        None => false,
        Some(top) => *top == node || has_node(top.left, node) || has_node(top.right, node),
    }
}

/// A subtree has no more leaves than keys and is no higher than it has keys.
pub proof fn lemma_height_and_leaves_bounded<T, A>(link: Link<T, A>)
    ensures
        height_of(link) <= keys_of(link).len(),
        leaves_of(link) <= keys_of(link).len(),
        link is Some ==> height_of(link) >= 1 && leaves_of(link) >= 1,
    decreases link,
{
    match link {
        None => {},
        Some(node) => {
            lemma_height_and_leaves_bounded(node.left);
            lemma_height_and_leaves_bounded(node.right);
        },
    }
}

impl<T, A> TreeNode<T, A> {
    /// This node as a subtree.
    pub open spec fn as_link(self) -> Link<T, A> {
        Some(Box::new(self))
    }

    /// The subtree on the given side, for use in contracts.
    pub open spec fn child_at(self, dir: Direction) -> Link<T, A> {
        match dir {
            Direction::Left => self.left,
            Direction::Right => self.right,
        }
    }

    /// This node with the subtree on the given side replaced.
    pub open spec fn with_child_at(self, dir: Direction, link: Link<T, A>) -> TreeNode<T, A> {
        match dir {
            Direction::Left => TreeNode { left: link, ..self },
            Direction::Right => TreeNode { right: link, ..self },
        }
    }

    /// A node without children.
    pub fn new(value: T, tag: A) -> (node: Self)
        ensures
            node == (TreeNode { value, tag, left: None, right: None }),
    {
        TreeNode { value, tag, left: None, right: None }
    }

    /// The subtree on the given side.
    pub fn child(&self, dir: Direction) -> (c: &Link<T, A>)
        ensures
            *c == self.child_at(dir),
    {
        match dir {
            Direction::Left => &self.left,
            Direction::Right => &self.right,
        }
    }

    /// Replaces the subtree on the given side.
    pub fn set_child(&mut self, dir: Direction, v: Link<T, A>)
        ensures
            *final(self) == old(self).with_child_at(dir, v),
    {
        match dir {
            Direction::Left => {
                self.left = v;
            },
            Direction::Right => {
                self.right = v;
            },
        }
    }

    /// Detaches and returns the subtree on the given side.
    pub fn take_child(&mut self, dir: Direction) -> (c: Link<T, A>)
        ensures
            c == old(self).child_at(dir),
            *final(self) == old(self).with_child_at(dir, None),
    {
        match dir {
            Direction::Left => self.left.take(),
            Direction::Right => self.right.take(),
        }
    }

    /// Whether the node has no children.
    pub fn is_leaf(&self) -> (b: bool)
        ensures
            b == (self.left is None && self.right is None),
    {
        self.left.is_none() && self.right.is_none()
    }

    /// The key of the leftmost node below and including this one: the first
    /// key of the subtree in order.
    pub fn get_min(&self) -> (m: T) where T: Copy
        ensures
            m == keys_of(self.as_link())[0],
        decreases self,
    {
        match &self.left {
            None => {
                assert(keys_of(self.left) =~= Seq::<T>::empty());
                self.value
            },
            Some(nd) => {
                let m = nd.get_min();
                assert(keys_of(nd.as_link()).len() >= 1);
                m
            },
        }
    }

    /// The height of the subtree that starts at this node, counted anew.
    pub fn get_height(&self) -> (h: u32)
        requires
            height_of(self.as_link()) <= u32::MAX,
        ensures
            h == height_of(self.as_link()),
        decreases self,
    {
        let left_height: u32 = match &self.left {
            Some(ln) => {
                assert(self.left == ln.as_link());
                ln.get_height()
            },
            None => 0,
        };
        let right_height: u32 = match &self.right {
            Some(rn) => {
                assert(self.right == rn.as_link());
                rn.get_height()
            },
            None => 0,
        };
        assert(left_height == height_of(self.left));
        assert(right_height == height_of(self.right));
        if left_height >= right_height {
            left_height + 1
        } else {
            right_height + 1
        }
    }

    /// The height of the subtree that starts at this node if the subtree is
    /// balanced at every node, counted anew; `None` if it is not.
    pub fn balanced_height(&self) -> (h: Option<usize>)
        requires
            keys_of(self.as_link()).len() <= usize::MAX,
        ensures
            h is Some == balanced(self.as_link()),
            h matches Some(n) ==> n == height_of(self.as_link()),
        decreases self,
    {
        proof {
            lemma_height_and_leaves_bounded(self.as_link());
            lemma_height_and_leaves_bounded(self.left);
            lemma_height_and_leaves_bounded(self.right);
        }
        let left_height: usize = match &self.left {
            Some(ln) => {
                assert(self.left == ln.as_link());
                match ln.balanced_height() {
                    Some(n) => n,
                    None => {
                        return None;
                    },
                }
            },
            None => 0,
        };
        let right_height: usize = match &self.right {
            Some(rn) => {
                assert(self.right == rn.as_link());
                match rn.balanced_height() {
                    Some(n) => n,
                    None => {
                        return None;
                    },
                }
            },
            None => 0,
        };
        assert(left_height == height_of(self.left));
        assert(right_height == height_of(self.right));
        assert(balanced(self.left) && balanced(self.right));
        if left_height >= right_height {
            if left_height - right_height < 2 {
                Some(left_height + 1)
            } else {
                None
            }
        } else {
            if right_height - left_height < 2 {
                Some(right_height + 1)
            } else {
                None
            }
        }
    }

    /// The number of leaves of the subtree that starts at this node.
    pub fn count_leaves(&self) -> (n: u32)
        requires
            leaves_of(self.as_link()) <= u32::MAX,
        ensures
            n == leaves_of(self.as_link()),
        decreases self,
    {
        if self.is_leaf() {
            return 1;
        }
        let left_leaves: u32 = match &self.left {
            Some(l) => {
                assert(self.left == l.as_link());
                l.count_leaves()
            },
            None => 0,
        };
        let right_leaves: u32 = match &self.right {
            Some(r) => {
                assert(self.right == r.as_link());
                r.count_leaves()
            },
            None => 0,
        };
        assert(left_leaves == leaves_of(self.left));
        assert(right_leaves == leaves_of(self.right));
        left_leaves + right_leaves
    }

    /// Appends the keys of the subtree to `result`, from left to right.
    pub fn inorder(&self, result: &mut Vec<T>) where T: Copy
        ensures
            final(result)@ == old(result)@ + keys_of(self.as_link()),
        decreases self,
    {
        if let Some(l) = &self.left {
            assert(self.left == l.as_link());
            l.inorder(result);
        }
        assert(result@ == old(result)@ + keys_of(self.left));
        result.push(self.value);
        if let Some(r) = &self.right {
            assert(self.right == r.as_link());
            r.inorder(result);
        }
        assert(result@ == old(result)@ + keys_of(self.left) + seq![self.value] + keys_of(self.right));
        assert(result@ =~= old(result)@ + keys_of(self.as_link()));
    }

    /// The only child of a node that has at most one, with its side; no
    /// child and `Direction::Left` for a leaf.
    pub fn get_child_delete_helper(&self) -> (r: (Option<&TreeNode<T, A>>, Direction))
        requires
            !(self.left is Some && self.right is Some),
        ensures
            self.left matches Some(l) ==> r.0 == Some(&*l) && r.1 == Direction::Left,
            self.right matches Some(c) ==> r.0 == Some(&*c) && r.1 == Direction::Right,
            self.left is None && self.right is None ==> r.0 is None && r.1 == Direction::Left,
    {
        if let Some(l) = &self.left {
            return (Some(&**l), Direction::Left);
        }
        if let Some(c) = &self.right {
            return (Some(&**c), Direction::Right);
        }
        (None, Direction::Left)
    }

    /// Takes a node with at most one child out of the tree: what is left to
    /// hang in its place is its only child, or nothing.
    pub fn delete_node(node: Box<TreeNode<T, A>>) -> (rest: Link<T, A>)
        requires
            !(node.left is Some && node.right is Some),
        ensures
            rest == if node.right is Some { node.right } else { node.left },
            keys_of(rest) == keys_of(node.left) + keys_of(node.right),
    {
        let nd = *node;
        let TreeNode { value: _, tag: _, left, right } = nd;
        let rest = match right {
            None => left,
            Some(r) => Some(r),
        };
        assert(keys_of(rest) =~= keys_of(node.left) + keys_of(node.right));
        rest
    }
}

/// What a node of a binary tree offers: its key and its two subtrees, to
/// read and to replace.
pub trait TreeNodeTrait<T: Copy>: Sized {
    /// The key of the node.
    spec fn key(&self) -> T;

    /// The subtree on the left.
    spec fn left_link(&self) -> Option<Box<Self>>;

    /// The subtree on the right.
    spec fn right_link(&self) -> Option<Box<Self>>;

    /// The left subtree.
    fn left(&self) -> (l: &Option<Box<Self>>)
        ensures
            *l == self.left_link(),
    ;

    /// The right subtree.
    fn right(&self) -> (r: &Option<Box<Self>>)
        ensures
            *r == self.right_link(),
    ;

    /// The key.
    fn value(&self) -> (v: T)
        ensures
            v == self.key(),
    ;

    /// Replaces the left subtree.
    fn set_left(&mut self, v: Option<Box<Self>>)
        ensures
            final(self).left_link() == v,
            final(self).right_link() == old(self).right_link(),
            final(self).key() == old(self).key(),
    ;

    /// Replaces the right subtree.
    fn set_right(&mut self, v: Option<Box<Self>>)
        ensures
            final(self).right_link() == v,
            final(self).left_link() == old(self).left_link(),
            final(self).key() == old(self).key(),
    ;

    /// Replaces the key.
    fn set_value(&mut self, v: T)
        ensures
            final(self).key() == v,
            final(self).left_link() == old(self).left_link(),
            final(self).right_link() == old(self).right_link(),
    ;
}

impl<T: Copy, A> TreeNodeTrait<T> for TreeNode<T, A> {
    open spec fn key(&self) -> T {
        self.value
    }

    open spec fn left_link(&self) -> Link<T, A> {
        self.left
    }

    open spec fn right_link(&self) -> Link<T, A> {
        self.right
    }

    fn left(&self) -> (l: &Link<T, A>) {
        &self.left
    }

    fn right(&self) -> (r: &Link<T, A>) {
        &self.right
    }

    fn value(&self) -> (v: T) {
        self.value
    }

    fn set_left(&mut self, v: Link<T, A>)
        ensures
            *final(self) == old(self).with_child_at(Direction::Left, v),
    {
        self.left = v;
    }

    fn set_right(&mut self, v: Link<T, A>)
        ensures
            *final(self) == old(self).with_child_at(Direction::Right, v),
    {
        self.right = v;
    }

    fn set_value(&mut self, v: T)
        ensures
            *final(self) == (TreeNode { value: v, ..*old(self) }),
    {
        self.value = v;
    }
}

/// The side of a node holding `parent_value` on which `value` belongs.
pub open spec fn side_of<T: TreeKey>(parent_value: T, value: T) -> Direction {
    if value.rank() < parent_value.rank() {
        Direction::Left
    } else {
        Direction::Right
    }
}

impl<T: TreeKey, A> TreeNode<T, A> {
    /// The side of `parent` on which this node hangs, told by the keys.
    pub fn get_direction_to_parent(&self, parent: &TreeNode<T, A>) -> (d: Direction)
        requires
            parent.value != self.value,
        ensures
            d == side_of(parent.value, self.value),
    {
        if self.value.less_than(&parent.value) {
            Direction::Left
        } else {
            Direction::Right
        }
    }

    /// The other child of this node's parent; none where there is no parent.
    pub fn get_sibling<'a>(&self, parent: Option<&'a TreeNode<T, A>>) -> (s: Option<&'a TreeNode<T, A>>)
        requires
            parent matches Some(p) ==> p.value != self.value,
        ensures
            match parent {
                None => s is None,
                Some(p) => match p.child_at(side_of(p.value, self.value).flipped()) {
                    None => s is None,
                    Some(b) => s == Some(&*b),
                },
            },
    {
        match parent {
            None => None,
            Some(p) => {
                let direc = self.get_direction_to_parent(p);
                match p.child(direc.opposite()) {
                    None => None,
                    Some(b) => Some(&**b),
                }
            },
        }
    }
}

/// The subtree that a single rotation makes of `parent`: the child on side
/// `dir` comes to the top, `parent` becomes its child on the other side, and
/// the child's former subtree on that other side hangs where the child was.
pub open spec fn rotated<T, A>(parent: TreeNode<T, A>, dir: Direction) -> TreeNode<T, A>
    recommends
        parent.child_at(dir) is Some,
{
    let child = *parent.child_at(dir).unwrap();
    let inner = child.child_at(dir.flipped());
    child.with_child_at(dir.flipped(), parent.with_child_at(dir, inner).as_link())
}

/// A rotation keeps the keys in their order.
pub proof fn lemma_rotated_keys<T, A>(parent: TreeNode<T, A>, dir: Direction)
    requires
        parent.child_at(dir) is Some,
    ensures
        keys_of(rotated(parent, dir).as_link()) == keys_of(parent.as_link()),
{
    let child = *parent.child_at(dir).unwrap();
    let inner = child.child_at(dir.flipped());
    let lowered = parent.with_child_at(dir, inner);
    assert(keys_of(parent.child_at(dir)) == keys_of(child.left) + seq![child.value] + keys_of(child.right));
    assert(keys_of(lowered.as_link()) == keys_of(lowered.left) + seq![lowered.value] + keys_of(lowered.right));
    assert(keys_of(rotated(parent, dir).as_link()) =~= keys_of(parent.as_link()));
}

/// Rotates `parent` with its child on side `dir`: the child takes the
/// parent's place. Tags are left as they are.
pub fn rotate<T, A>(parent: Box<TreeNode<T, A>>, dir: Direction) -> (top: Box<TreeNode<T, A>>)
    requires
        parent.child_at(dir) is Some,
    ensures
        *top == rotated(*parent, dir),
        keys_of(Some(top)) == keys_of(Some(parent)),
{
    let mut p = parent;
    let mut c = p.take_child(dir).unwrap();
    let gc = c.take_child(dir.opposite());
    p.set_child(dir, gc);
    c.set_child(dir.opposite(), Some(p));
    proof {
        lemma_rotated_keys(*parent, dir);
    }
    c
}

/// Looks for the node that holds `value`, going down from `root` by
/// comparing keys.
pub fn search_node<'a, T: TreeKey, A>(root: &'a Link<T, A>, value: T) -> (found: Option<&'a TreeNode<T, A>>)
    ensures
        found matches Some(node) ==> node.value == value && on_search_path(*root, value, *node),
        found is None ==> forall|node: TreeNode<T, A>| on_search_path(*root, value, node) ==> node.value != value,
        strictly_increasing(keys_of(*root)) ==> (found is Some <==> keys_of(*root).contains(value)),
    decreases *root,
{
    match root {
        None => None,
        Some(node) => {
            proof {
                if strictly_increasing(keys_of(*root)) {
                    lemma_contains_by_side(keys_of(node.left), node.value, keys_of(node.right), value);
                    lemma_increasing_around(keys_of(node.left), node.value, keys_of(node.right));
                }
            }
            if value.less_than(&node.value) {
                let found = search_node(&node.left, value);
                proof {
                    lemma_search_goes_down(**node, value);
                }
                found
            } else if node.value.less_than(&value) {
                let found = search_node(&node.right, value);
                proof {
                    lemma_search_goes_down(**node, value);
                }
                found
            } else {
                proof {
                    T::rank_is_injective(value, node.value);
                }
                Some(&**node)
            }
        },
    }
}

/// Below a top that does not hold `value`, the search for `value` goes on
/// in the subtree on the side where `value` belongs, and nowhere else.
pub proof fn lemma_search_goes_down<T: TreeKey, A>(top: TreeNode<T, A>, value: T)
    requires
        top.value.rank() != value.rank(),
    ensures
        forall|node: TreeNode<T, A>| #[trigger]
            on_search_path(top.as_link(), value, node) <==> (node == top || on_search_path(
                top.child_at(side_of(top.value, value)),
                value,
                node,
            )),
{
}

/// Looks for the node under which a new `value` would hang: the node at
/// which the search for `value` runs out of tree. None where the tree is
/// empty or the search meets `value`.
pub fn search_insert_point<'a, T: TreeKey, A>(root: &'a Link<T, A>, value: T) -> (point: Option<&'a TreeNode<T, A>>)
    ensures
        point matches Some(node) ==> {
            &&& on_search_path(*root, value, *node)
            &&& node.value != value
            &&& node.child_at(side_of(node.value, value)) is None
        },
        point is None ==> *root is None || exists|node: TreeNode<T, A>|
            on_search_path(*root, value, node) && node.value == value,
        strictly_increasing(keys_of(*root)) ==> (point is None <==> (*root is None || keys_of(*root).contains(value))),
    decreases *root,
{
    match root {
        None => None,
        Some(node) => {
            proof {
                if strictly_increasing(keys_of(*root)) {
                    lemma_contains_by_side(keys_of(node.left), node.value, keys_of(node.right), value);
                    lemma_increasing_around(keys_of(node.left), node.value, keys_of(node.right));
                }
            }
            if value.less_than(&node.value) {
                match &node.left {
                    None => {
                        assert(keys_of(node.left) =~= Seq::<T>::empty());
                        Some(&**node)
                    },
                    Some(_) => {
                        let point = search_insert_point(&node.left, value);
                        proof {
                            lemma_search_goes_down(**node, value);
                            if point is None {
                                let met = choose|met: TreeNode<T, A>|
                                    on_search_path(node.left, value, met) && met.value == value;
                                assert(on_search_path(*root, value, met));
                            }
                        }
                        point
                    },
                }
            } else if node.value.less_than(&value) {
                match &node.right {
                    None => {
                        assert(keys_of(node.right) =~= Seq::<T>::empty());
                        Some(&**node)
                    },
                    Some(_) => {
                        let point = search_insert_point(&node.right, value);
                        proof {
                            lemma_search_goes_down(**node, value);
                            if point is None {
                                let met = choose|met: TreeNode<T, A>|
                                    on_search_path(node.right, value, met) && met.value == value;
                                assert(on_search_path(*root, value, met));
                            }
                        }
                        point
                    },
                }
            } else {
                proof {
                    T::rank_is_injective(value, node.value);
                    assert(on_search_path(*root, value, **node));
                }
                None
            }
        },
    }
}

/// What every tree of this library offers, whatever its balancing scheme:
/// one contract over the ascending sequence of the keys.
pub trait SimpleTreeTrait<T: TreeKey>: Sized {
    /// The keys of the tree in ascending order.
    spec fn keys(&self) -> Seq<T>;

    /// The tree is fit for insertion and deletion: its keys ascend, it
    /// obeys the rules of its balancing scheme, what its nodes cache is
    /// right, and it holds at most `u32::MAX` keys.
    spec fn well_formed(&self) -> bool;

    /// The keys of a tree that is fit for insertion and deletion ascend.
    proof fn lemma_well_formed_ascends(&self)
        requires
            self.well_formed(),
        ensures
            strictly_increasing(self.keys()),
            self.keys().len() <= u32::MAX,
    ;

    /// The number of nodes on the longest path from the top down.
    spec fn nodes_high(&self) -> nat;

    /// The number of nodes without children.
    spec fn leaf_nodes(&self) -> nat;

    /// Puts `value` into the tree; `false` where the tree already holds it.
    /// A tree holds at most `u32::MAX` keys, so there must be room for a
    /// new one.
    fn insert(&mut self, value: T) -> (inserted: bool)
        requires
            old(self).well_formed(),
            old(self).keys().len() < u32::MAX || old(self).keys().contains(value),
        ensures
            final(self).well_formed(),
            inserted == !old(self).keys().contains(value),
            final(self).keys() == with_key(old(self).keys(), value),
    ;

    /// Takes `value` out of the tree; `None` where the tree does not hold it.
    fn delete(&mut self, value: T) -> (deleted: Option<T>)
        requires
            old(self).well_formed(),
        ensures
            final(self).well_formed(),
            deleted == if old(self).keys().contains(value) { Some(value) } else { None },
            final(self).keys() == without_key(old(self).keys(), value),
    ;

    /// The number of nodes without children, 0 for an empty tree.
    fn count_leaves(&self) -> (n: u32)
        requires
            self.keys().len() <= u32::MAX,
        ensures
            n == self.leaf_nodes(),
    ;

    /// Whether the tree holds no key.
    fn is_empty(&self) -> (b: bool)
        ensures
            b == (self.keys().len() == 0),
    ;

    /// The height of the tree, 0 for an empty tree.
    fn height(&self) -> (h: u32)
        requires
            self.well_formed(),
        ensures
            h == self.nodes_high(),
    ;

    /// The keys of the tree in ascending order.
    fn in_order_traverse(&self) -> (keys: Vec<T>)
        ensures
            keys@ == self.keys(),
    ;
}

/// A tree that is built of `TreeNode`s with tags of type `A`.
pub trait TreeTrait<T: TreeKey, A>: SimpleTreeTrait<T> {
    /// The top of the tree, for use in contracts.
    spec fn top(&self) -> Link<T, A>;

    /// The keys, the height and the leaves of the tree are those of its top.
    proof fn lemma_top(&self)
        ensures
            self.keys() == keys_of(self.top()),
            self.nodes_high() == height_of(self.top()),
            self.leaf_nodes() == leaves_of(self.top()),
    ;

    /// The top node of the tree, if there is one.
    fn root(&self) -> (r: &Link<T, A>)
        ensures
            *r == self.top(),
    ;

    /// Whether the tree holds `value`.
    fn search(&self, value: T) -> (found: bool)
        requires
            self.well_formed(),
        ensures
            found == self.keys().contains(value),
    ;

    /// The tree is empty, or its keys ascend and it obeys the rules of its
    /// balancing scheme. Nothing is asked of what the nodes cache, nor of
    /// the number of keys.
    spec fn sound(&self) -> bool;

    /// A tree that is fit for insertion and deletion is sound.
    proof fn lemma_well_formed_is_sound(&self)
        requires
            self.well_formed(),
        ensures
            self.sound(),
    ;

    /// Checks the whole tree anew: the order of the keys and the rules of
    /// the balancing scheme at every node.
    fn check_valid(&self) -> (b: bool)
        ensures
            b == self.sound(),
    ;

    /// Checks the whole tree anew for all that insertion and deletion rely
    /// on.
    fn check_invariants(&self) -> (b: bool)
        ensures
            b == self.well_formed(),
    ;
}

} // verus!
