use binary_trees::avltree::AVLTree;

fn check_valid_insert(tree: &AVLTree<i32>, value: i32, pre_delete_vec: &mut Vec<i32>) {
    let mut vec = tree.in_order_traverse();
    assert!(tree.check_valid());
    assert!(vec.len() == pre_delete_vec.len() + 1);
    vec.retain(|&x| x != value);
    assert!(vec.iter().zip(&mut pre_delete_vec.iter()).filter(|&(a, b)| a != b).count() == 0);
}

fn check_valid_delete(tree: &AVLTree<i32>, expect: Option<i32>, result: Option<i32>, pre_delete_vec: &mut Vec<i32>) {
    let vec = tree.in_order_traverse();
    assert!(tree.check_valid());
    match expect {
        Some(value) => {
            assert!(result.is_some() && result.clone().unwrap() == value);
            assert!(vec.len() == pre_delete_vec.len() - 1);
            pre_delete_vec.retain(|&x| x != value);
        }
        None => {
            assert!(result.is_none());
        }
    }
    assert!(vec.iter().zip(&mut pre_delete_vec.iter()).filter(|&(a, b)| a != b).count() == 0);
}

#[test]
fn test_insert1() {
    // insert new
    let mut tree: AVLTree<i32> = AVLTree { root: None };
    assert!(tree.insert(5));
    assert!(tree.root.is_some() && tree.root.as_ref().unwrap().value == 5);
}

#[test]
fn test_insert2() {
    // insert one
    let mut tree: AVLTree<i32> = AVLTree { root: None };
    tree.insert(5);
    let mut vec: Vec<i32> = vec![5];
    assert!(tree.insert(8));
    check_valid_insert(&tree, 8, &mut vec);
}

#[test]
fn test_insert3() {
    // RR
    let mut tree: AVLTree<i32> = AVLTree { root: None };
    tree.insert(5);
    tree.insert(6);
    let mut vec: Vec<i32> = vec![5, 6];
    assert!(tree.insert(8));
    check_valid_insert(&tree, 8, &mut vec);
}

#[test]
fn test_insert4() {
    // LL
    let mut tree: AVLTree<i32> = AVLTree { root: None };
    tree.insert(5);
    tree.insert(4);
    let mut vec: Vec<i32> = vec![4, 5];
    assert!(tree.insert(3));
    check_valid_insert(&tree, 3, &mut vec);
}

#[test]
fn test_insert5() {
    // LR
    let mut tree: AVLTree<i32> = AVLTree { root: None };
    tree.insert(5);
    tree.insert(2);
    let mut vec: Vec<i32> = vec![2, 5];
    assert!(tree.insert(3));
    check_valid_insert(&tree, 3, &mut vec);
}

#[test]
fn test_insert6() {
    // RL
    let mut tree: AVLTree<i32> = AVLTree { root: None };
    tree.insert(5);
    tree.insert(9);
    let mut vec: Vec<i32> = vec![5, 9];
    assert!(tree.insert(6));
    check_valid_insert(&tree, 6, &mut vec);
}

#[test]
fn test_insert7() {
    let mut tree: AVLTree<i32> = AVLTree { root: None };
    tree.insert(5);
    tree.insert(2);
    let mut vec: Vec<i32> = vec![2, 5];
    assert!(tree.insert(8));
    check_valid_insert(&tree, 8, &mut vec);
}

#[test]
fn test_insert8() {
    let mut tree: AVLTree<i32> = AVLTree { root: None };
    tree.insert(5);
    tree.insert(2);
    tree.insert(8);
    assert!(!tree.insert(8));
}

#[test]
fn avltree_test_delete1() {
    // root
    let mut tree: AVLTree<i32> = AVLTree { root: None };
    tree.insert(8);
    let d = tree.delete(8);
    assert!(d.is_some() && d.clone().unwrap() == 8);
    assert!(tree.is_empty());
}

#[test]
fn avltree_test_delete2() {
    // LL
    let mut tree: AVLTree<i32> = AVLTree { root: None };
    tree.insert(5);
    tree.insert(8);
    tree.insert(2);
    tree.insert(1);
    let mut vec = tree.in_order_traverse();
    let d = tree.delete(1);
    check_valid_delete(&tree, Some(1), d, &mut vec);
}

#[test]
fn avltree_test_delete3() {
    // RR
    let mut tree: AVLTree<i32> = AVLTree { root: None };
    tree.insert(5);
    tree.insert(8);
    tree.insert(2);
    tree.insert(10);
    let mut vec = tree.in_order_traverse();
    let d = tree.delete(10);
    check_valid_delete(&tree, Some(10), d, &mut vec);
}

#[test]
fn avltree_test_delete4() {
    // LR
    let mut tree: AVLTree<i32> = AVLTree { root: None };
    tree.insert(5);
    tree.insert(8);
    tree.insert(2);
    tree.insert(1);
    tree.insert(3);
    let mut vec = tree.in_order_traverse();
    let d = tree.delete(1);
    check_valid_delete(&tree, Some(1), d, &mut vec);
}

#[test]
fn avltree_test_delete5() {
    // RL
    let mut tree: AVLTree<i32> = AVLTree { root: None };
    tree.insert(5);
    tree.insert(8);
    tree.insert(2);
    tree.insert(6);
    tree.insert(10);
    let mut vec = tree.in_order_traverse();
    let d = tree.delete(10);
    check_valid_delete(&tree, Some(10), d, &mut vec);
}

#[test]
fn avltree_test_delete6() {
    // invalid
    let mut tree: AVLTree<i32> = AVLTree { root: None };
    tree.insert(8);
    tree.insert(80);
    assert!(tree.delete(25).is_none());
}

#[test]
fn avltree_test_delete7() {
    // two children
    let mut tree: AVLTree<i32> = AVLTree { root: None };
    tree.insert(5);
    tree.insert(8);
    tree.insert(2);
    tree.insert(6);
    tree.insert(10);
    let mut vec = tree.in_order_traverse();
    let d = tree.delete(5);
    check_valid_delete(&tree, Some(5), d, &mut vec);
}
