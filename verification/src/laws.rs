//! What holds of the trees whatever is done with them, stated over the
//! ascending key sequences and the shapes that the operations are specified
//! with.

use crate::avltree::{avl_shape, AVLTree};
use crate::key::TreeKey;
use crate::order::{
    lemma_short_increasing, lemma_with_key_contains, lemma_with_key_increasing, lemma_with_key_len,
    lemma_with_key_present, lemma_without_key_absent, lemma_without_key_contains, lemma_without_key_increasing,
    lemma_without_key_len, strictly_increasing, with_key, without_key,
};
use crate::rbtree::{black_count, black_height, rb_shape, red, NodeColor, RedBlackTree};
use crate::tree::{has_node, height_of, keys_of, leaves_of, lemma_height_and_leaves_bounded, Direction, Link, TreeNode};
use vstd::prelude::*;

verus! {

/// The keys of a tree that held `start` after the keys of `inserted` have
/// been put into it one after the other.
pub open spec fn after_inserts<T: TreeKey>(start: Seq<T>, inserted: Seq<T>) -> Seq<T>
    decreases inserted.len(),
{
    if inserted.len() == 0 {
        start
    } else {
        with_key(after_inserts(start, inserted.drop_last()), inserted.last())
    }
}

/// Whatever keys are put into an empty tree, in whatever order and with
/// whatever repetitions, the keys of the tree ascend strictly afterwards,
/// and so after every single insertion on the way.
pub proof fn law_keys_ascend_after_inserts<T: TreeKey>(inserted: Seq<T>)
    ensures
        strictly_increasing(after_inserts(Seq::<T>::empty(), inserted)),
    decreases inserted.len(),
{
    if inserted.len() == 0 {
        lemma_short_increasing(Seq::<T>::empty());
    } else {
        law_keys_ascend_after_inserts(inserted.drop_last());
        lemma_with_key_increasing(after_inserts(Seq::<T>::empty(), inserted.drop_last()), inserted.last());
    }
}

/// Insertion and deletion keep an ascending key sequence ascending.
pub proof fn law_keys_stay_ascending<T: TreeKey>(keys: Seq<T>, value: T)
    requires
        strictly_increasing(keys),
    ensures
        strictly_increasing(with_key(keys, value)),
        strictly_increasing(without_key(keys, value)),
{
    lemma_with_key_increasing(keys, value);
    lemma_without_key_increasing(keys, value);
}

/// In a valid AVL tree the heights of the two subtrees of every node differ
/// by at most one, and every node caches its true height.
pub proof fn law_avl_balance_at_every_node<T: TreeKey>(tree: AVLTree<T>, node: TreeNode<T, u32>)
    requires
        tree.valid(),
        has_node(tree.root, node),
    ensures
        height_of(node.left) <= height_of(node.right) + 1,
        height_of(node.right) <= height_of(node.left) + 1,
        node.tag == height_of(node.as_link()),
{
    lemma_avl_shape_at_node(tree.root, node);
}

/// A subtree of AVL shape has AVL shape at every node.
pub proof fn lemma_avl_shape_at_node<T>(link: Link<T, u32>, node: TreeNode<T, u32>)
    requires
        avl_shape(link),
        has_node(link, node),
    ensures
        avl_shape(node.as_link()),
    decreases link,
{
    let top = *link.unwrap();
    if top != node {
        if has_node(top.left, node) {
            lemma_avl_shape_at_node(top.left, node);
        } else {
            lemma_avl_shape_at_node(top.right, node);
        }
    }
}

/// Whether going down from the top of the subtree by the turns of `path`
/// passes through a node at every turn and ends where a child is missing.
pub open spec fn ends_below_leaf<T, A>(link: Link<T, A>, path: Seq<Direction>) -> bool
    decreases path.len(),
{
    match link {
        None => path.len() == 0,
        Some(node) => path.len() > 0 && ends_below_leaf(node.child_at(path[0]), path.drop_first()),
    }
}

/// The number of black nodes met on the way down from the top of the
/// subtree by the turns of `path`, the missing child at the end counted as
/// one black node.
pub open spec fn blacks_along<T>(link: Link<T, NodeColor>, path: Seq<Direction>) -> nat
    decreases path.len(),
{
    match link {
        None => 1,
        Some(node) => black_count(node.tag) + if path.len() > 0 {
            blacks_along(node.child_at(path[0]), path.drop_first())
        } else {
            0
        },
    }
}

/// A subtree that obeys the red-black rules obeys them at every node.
pub proof fn lemma_rb_shape_at_node<T>(link: Link<T, NodeColor>, node: TreeNode<T, NodeColor>)
    requires
        rb_shape(link),
        has_node(link, node),
    ensures
        rb_shape(node.as_link()),
    decreases link,
{
    let top = *link.unwrap();
    if top != node {
        if has_node(top.left, node) {
            lemma_rb_shape_at_node(top.left, node);
        } else {
            lemma_rb_shape_at_node(top.right, node);
        }
    }
}

/// In a subtree that obeys the red-black rules every path from the top
/// down to a missing child holds the same number of black nodes.
pub proof fn lemma_blacks_on_every_path<T>(link: Link<T, NodeColor>, path: Seq<Direction>)
    requires
        rb_shape(link),
        ends_below_leaf(link, path),
    ensures
        blacks_along(link, path) == black_height(link),
    decreases path.len(),
{
    if let Some(node) = link {
        lemma_blacks_on_every_path(node.child_at(path[0]), path.drop_first());
    }
}

/// In a valid red-black tree the top is black, no red node has a red
/// child, and every path from the top down to a missing child holds the
/// same number of black nodes.
pub proof fn law_red_black_rules<T: TreeKey>(
    tree: RedBlackTree<T>,
    node: TreeNode<T, NodeColor>,
    path: Seq<Direction>,
    other_path: Seq<Direction>,
)
    requires
        tree.valid(),
    ensures
        !red(tree.root),
        has_node(tree.root, node) && node.tag == NodeColor::Red ==> !red(node.left) && !red(node.right),
        ends_below_leaf(tree.root, path) && ends_below_leaf(tree.root, other_path) ==> blacks_along(
            tree.root,
            path,
        ) == blacks_along(tree.root, other_path),
{
    if has_node(tree.root, node) {
        lemma_rb_shape_at_node(tree.root, node);
    }
    if ends_below_leaf(tree.root, path) && ends_below_leaf(tree.root, other_path) {
        lemma_blacks_on_every_path(tree.root, path);
        lemma_blacks_on_every_path(tree.root, other_path);
    }
}

/// Putting a new key into a tree and taking it out again right away leaves
/// the keys of the tree as they were.
pub proof fn law_insert_then_delete<T: TreeKey>(keys: Seq<T>, value: T)
    requires
        strictly_increasing(keys),
        !keys.contains(value),
    ensures
        without_key(with_key(keys, value), value) == keys,
{
    lemma_with_key_increasing(keys, value);
    lemma_without_key_increasing(with_key(keys, value), value);
    lemma_same_members_same_keys(without_key(with_key(keys, value), value), keys, value);
}

/// Two ascending sequences that hold the same keys are the same sequence.
pub proof fn lemma_ascending_is_unique<T: TreeKey>(a: Seq<T>, b: Seq<T>)
    requires
        strictly_increasing(a),
        strictly_increasing(b),
        forall|x: T| a.contains(x) <==> b.contains(x),
    ensures
        a == b,
    decreases a.len(),
{
    reveal(strictly_increasing);
    if a.len() == 0 {
        if b.len() > 0 {
            assert(b.contains(b[0]));
        }
        assert(a =~= b);
    } else {
        let x = a.last();
        assert(a.contains(x)) by {
            assert(a[a.len() - 1] == x);
        }
        let j = choose|j: int| 0 <= j < b.len() && b[j] == x;
        let y = b.last();
        assert(b.contains(y)) by {
            assert(b[b.len() - 1] == y);
        }
        let i = choose|i: int| 0 <= i < a.len() && a[i] == y;
        if j < b.len() - 1 {
            assert(b[j].rank() < b[b.len() - 1].rank());
            if i < a.len() - 1 {
                assert(a[i].rank() < a[a.len() - 1].rank());
            }
        }
        assert(x == y);
        let ad = a.drop_last();
        let bd = b.drop_last();
        assert forall|z: T| ad.contains(z) <==> bd.contains(z) by {
            if ad.contains(z) {
                let k = choose|k: int| 0 <= k < ad.len() && ad[k] == z;
                assert(a[k] == z);
                assert(a.contains(z));
                let m = choose|m: int| 0 <= m < b.len() && b[m] == z;
                assert(a[k].rank() < a[a.len() - 1].rank());
                assert(m < b.len() - 1);
                assert(bd[m] == z);
            }
            if bd.contains(z) {
                let k = choose|k: int| 0 <= k < bd.len() && bd[k] == z;
                assert(b[k] == z);
                assert(b.contains(z));
                let m = choose|m: int| 0 <= m < a.len() && a[m] == z;
                assert(b[k].rank() < b[b.len() - 1].rank());
                assert(m < a.len() - 1);
                assert(ad[m] == z);
            }
        }
        lemma_ascending_is_unique(ad, bd);
        assert(a =~= ad.push(x));
        assert(b =~= bd.push(y));
    }
}

/// What is left of `keys` with a new key put in and taken out again holds
/// the keys of `keys`, and so is `keys`.
proof fn lemma_same_members_same_keys<T: TreeKey>(left: Seq<T>, keys: Seq<T>, value: T)
    requires
        strictly_increasing(keys),
        strictly_increasing(left),
        !keys.contains(value),
        left == without_key(with_key(keys, value), value),
    ensures
        left == keys,
{
    lemma_with_key_increasing(keys, value);
    assert forall|x: T| left.contains(x) <==> keys.contains(x) by {
        lemma_with_key_contains(keys, value, x);
        lemma_without_key_contains(with_key(keys, value), value, x);
    }
    lemma_ascending_is_unique(left, keys);
}

/// Putting a key into a tree a second time finds it there and leaves the
/// keys of the tree as they are.
pub proof fn law_insert_twice<T: TreeKey>(keys: Seq<T>, value: T)
    requires
        strictly_increasing(keys),
    ensures
        with_key(keys, value).contains(value),
        with_key(with_key(keys, value), value) == with_key(keys, value),
{
    lemma_with_key_len(keys, value);
    lemma_with_key_increasing(keys, value);
    lemma_with_key_present(with_key(keys, value), value);
}

/// A tree that held `start` holds, after insertions, what it held and what
/// was inserted.
pub proof fn lemma_after_inserts_contains<T: TreeKey>(start: Seq<T>, inserted: Seq<T>, x: T)
    requires
        strictly_increasing(start),
    ensures
        strictly_increasing(after_inserts(start, inserted)),
        after_inserts(start, inserted).contains(x) <==> (start.contains(x) || inserted.contains(x)),
    decreases inserted.len(),
{
    if inserted.len() > 0 {
        let before = inserted.drop_last();
        lemma_after_inserts_contains(start, before, x);
        lemma_with_key_increasing(after_inserts(start, before), inserted.last());
        lemma_with_key_contains(after_inserts(start, before), inserted.last(), x);
        if inserted.contains(x) {
            let i = choose|i: int| 0 <= i < inserted.len() && inserted[i] == x;
            if i < inserted.len() - 1 {
                assert(before[i] == x);
            }
        }
        if before.contains(x) {
            let i = choose|i: int| 0 <= i < before.len() && before[i] == x;
            assert(inserted[i] == x);
        }
        assert(inserted[inserted.len() - 1] == inserted.last());
    }
}

/// After as many distinct keys have been put into an empty tree, the tree
/// holds that many keys.
pub proof fn law_count_after_inserts<T: TreeKey>(inserted: Seq<T>)
    requires
        inserted.no_duplicates(),
    ensures
        after_inserts(Seq::<T>::empty(), inserted).len() == inserted.len(),
    decreases inserted.len(),
{
    if inserted.len() > 0 {
        let before = inserted.drop_last();
        let last = inserted.last();
        law_count_after_inserts(before);
        lemma_short_increasing(Seq::<T>::empty());
        lemma_after_inserts_contains(Seq::<T>::empty(), before, last);
        if before.contains(last) {
            let i = choose|i: int| 0 <= i < before.len() && before[i] == last;
            assert(inserted[i] == inserted[inserted.len() - 1]);
        }
        lemma_with_key_len(after_inserts(Seq::<T>::empty(), before), last);
    }
}

/// A tree that holds a key has a leaf.
pub proof fn law_leaf_in_every_tree<T, A>(root: Link<T, A>)
    requires
        keys_of(root).len() >= 1,
    ensures
        leaves_of(root) >= 1,
{
    lemma_height_and_leaves_bounded(root);
}

/// Taking a key out of a tree that holds it leaves one key fewer; taking
/// out a key that the tree does not hold leaves the keys as they are.
pub proof fn law_count_after_delete<T: TreeKey>(keys: Seq<T>, value: T)
    requires
        strictly_increasing(keys),
    ensures
        keys.contains(value) ==> without_key(keys, value).len() == keys.len() - 1,
        !keys.contains(value) ==> without_key(keys, value) == keys,
{
    lemma_without_key_len(keys, value);
    if !keys.contains(value) {
        lemma_without_key_absent(keys, value);
    }
}

/// The keys of a tree that held `start` after the keys of `deleted` have
/// been taken out of it one after the other.
pub open spec fn after_deletes<T: TreeKey>(start: Seq<T>, deleted: Seq<T>) -> Seq<T>
    decreases deleted.len(),
{
    if deleted.len() == 0 {
        start
    } else {
        without_key(after_deletes(start, deleted.drop_last()), deleted.last())
    }
}

/// A tree that held `start` holds, after deletions, what it held and was
/// not deleted; and its keys still ascend.
pub proof fn lemma_after_deletes_contains<T: TreeKey>(start: Seq<T>, deleted: Seq<T>, x: T)
    requires
        strictly_increasing(start),
    ensures
        strictly_increasing(after_deletes(start, deleted)),
        after_deletes(start, deleted).contains(x) <==> (start.contains(x) && !deleted.contains(x)),
    decreases deleted.len(),
{
    if deleted.len() > 0 {
        let before = deleted.drop_last();
        lemma_after_deletes_contains(start, before, x);
        lemma_without_key_increasing(after_deletes(start, before), deleted.last());
        lemma_without_key_contains(after_deletes(start, before), deleted.last(), x);
        if deleted.contains(x) {
            let i = choose|i: int| 0 <= i < deleted.len() && deleted[i] == x;
            if i < deleted.len() - 1 {
                assert(before[i] == x);
            }
        }
        if before.contains(x) {
            let i = choose|i: int| 0 <= i < before.len() && before[i] == x;
            assert(deleted[i] == x);
        }
        assert(deleted[deleted.len() - 1] == deleted.last());
    }
}

/// Where distinct keys that a tree does not hold are put into it one after
/// the other, each of them is new when its turn comes: every insertion
/// reports a new key.
pub proof fn law_each_insert_is_new<T: TreeKey>(start: Seq<T>, inserted: Seq<T>, turn: int)
    requires
        strictly_increasing(start),
        inserted.no_duplicates(),
        forall|i: int| 0 <= i < inserted.len() ==> !start.contains(#[trigger] inserted[i]),
        0 <= turn < inserted.len(),
    ensures
        !after_inserts(start, inserted.take(turn)).contains(inserted[turn]),
{
    let earlier = inserted.take(turn);
    lemma_after_inserts_contains(start, earlier, inserted[turn]);
    if earlier.contains(inserted[turn]) {
        let i = choose|i: int| 0 <= i < earlier.len() && earlier[i] == inserted[turn];
        assert(inserted[i] == inserted[turn]);
    }
}

/// Where distinct keys that a tree holds are taken out of it one after the
/// other, each of them is still there when its turn comes: every deletion
/// returns its key.
pub proof fn law_each_delete_finds_its_key<T: TreeKey>(start: Seq<T>, deleted: Seq<T>, turn: int)
    requires
        strictly_increasing(start),
        deleted.no_duplicates(),
        forall|i: int| 0 <= i < deleted.len() ==> start.contains(#[trigger] deleted[i]),
        0 <= turn < deleted.len(),
    ensures
        after_deletes(start, deleted.take(turn)).contains(deleted[turn]),
{
    let earlier = deleted.take(turn);
    lemma_after_deletes_contains(start, earlier, deleted[turn]);
    if earlier.contains(deleted[turn]) {
        let i = choose|i: int| 0 <= i < earlier.len() && earlier[i] == deleted[turn];
        assert(deleted[i] == deleted[turn]);
    }
}

/// Taking every key of a tree out of it, in whatever order, leaves no key.
pub proof fn law_delete_every_key<T: TreeKey>(start: Seq<T>, deleted: Seq<T>)
    requires
        strictly_increasing(start),
        forall|x: T| start.contains(x) ==> deleted.contains(x),
    ensures
        after_deletes(start, deleted) == Seq::<T>::empty(),
{
    let left = after_deletes(start, deleted);
    if left.len() > 0 {
        lemma_after_deletes_contains(start, deleted, left[0]);
        assert(left.contains(left[0]));
    }
    assert(left =~= Seq::<T>::empty());
}

/// Taking out, in whatever order, every key that was put into an empty
/// tree leaves no key: the tree is empty again.
pub proof fn law_delete_every_inserted_key<T: TreeKey>(inserted: Seq<T>, deleted: Seq<T>)
    requires
        forall|x: T| inserted.contains(x) ==> deleted.contains(x),
    ensures
        after_deletes(after_inserts(Seq::<T>::empty(), inserted), deleted) == Seq::<T>::empty(),
{
    let start = after_inserts(Seq::<T>::empty(), inserted);
    lemma_short_increasing(Seq::<T>::empty());
    assert forall|x: T| start.contains(x) implies deleted.contains(x) by {
        lemma_after_inserts_contains(Seq::<T>::empty(), inserted, x);
    }
    law_keys_ascend_after_inserts(inserted);
    law_delete_every_key(start, deleted);
}

/// A tree without keys has no top, no height and no leaves.
pub proof fn law_no_keys_no_nodes<T, A>(root: Link<T, A>)
    requires
        keys_of(root).len() == 0,
    ensures
        root is None,
        height_of(root) == 0,
        leaves_of(root) == 0,
{
}

} // verus!
