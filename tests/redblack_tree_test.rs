use mutcrab::rbtree::{RBTree, TreeNode};
use std::marker::PhantomData;

#[test]
fn test_tree_put() {
    let mut tree = RBTree::new();
    tree.put(1, 1);
    tree.put(2, 2);
    tree.put(3, 3);
    tree.put(4, 4);
    assert_eq!(tree.get(&100).map(|x| x), None);
    assert_eq!(tree.get(&3).map(|x| *x), Some(3));
}

#[test]
fn test_tree_iterator() {
    let mut tree = RBTree::new();
    tree.put(1, 2);
    tree.put(2, 2);
    tree.put(3, 3);
    tree.put(4, 4);
    let arr = tree.walk().into_iter().map(|x| *x.0).collect::<Vec<i32>>();
    assert_eq!(arr, vec![2, 3, 4, 1]);
}

#[test]
fn test_tree_put2() {
    let mut tree = RBTree::new();
    let arr = [
        12, 23, 45, 34, 40, 67, 78, 89, 90, 100, 110, 120, 130, 140, 150, 160, 170, 180,
    ];
    for i in &arr {
        tree.put(i.clone(), i.clone());
    }
    let rs = tree.walk().into_iter().map(|x| *x.0).collect::<Vec<i32>>();
    assert_eq!(
        rs,
        vec![89, 90, 100, 110, 120, 130, 140, 150, 160, 170, 180, 78, 67, 45, 40, 34, 23, 12]
    );
}

#[test]
fn test_base() {
    let mut tree = RBTree::<i32, PhantomData<i32>>::new();
    let arr = vec![5, 3, 7, 2, 4, 6, 8];
    for i in arr.iter() {
        tree.put(i.clone(), PhantomData);
    }
    for (k, _) in tree.iter() {
        println!("{:?}", k);
    }
    for (k, _) in tree.clean_transfer() {
        println!("{:?}", k);
    }
}

/// Checks the red-black rules below `link` and returns its black height.
fn check_red_black(link: &Option<Box<TreeNode<i32, i32>>>, parent_red: bool) -> usize {
    match link {
        None => 0,
        Some(node) => {
            assert!(!(parent_red && node.is_red), "red node with a red child");
            let l = check_red_black(&node.left, node.is_red);
            let r = check_red_black(&node.right, node.is_red);
            assert_eq!(l, r, "uneven black height");
            l + if node.is_red { 0 } else { 1 }
        }
    }
}

#[test]
fn red_black_rules_hold_after_inserts() {
    let mut tree = RBTree::new();
    let mut x: i64 = 7;
    for _ in 0..500 {
        x = (x * 1103515245 + 12345) % 2147483648;
        let k = (x % 1000) as i32;
        tree.put(k, k * 2);
        assert!(!tree.root.as_ref().unwrap().is_red);
        check_red_black(&tree.root, false);
    }
    for k in 0..1000 {
        if let Some(v) = tree.get(&k) {
            assert_eq!(*v, k * 2);
        }
    }
}

#[test]
fn tree_ascending_drain_and_get_or_insert() {
    let mut tree = RBTree::new();
    for k in [5u64, 1, 9, 3, 7] {
        tree.put(k, k as i32);
    }
    assert_eq!(*tree.get_or_insert(3, 100), 3);
    *tree.get_or_insert(4, 40) += 1;
    assert_eq!(tree.get(&4), Some(&41));
    assert_eq!(tree.put(9, 90), Some(9));
    assert!(tree.contains(&9));
    assert!(!tree.contains(&8));
    let keys: Vec<u64> = tree.clean_transfer().into_iter().map(|(k, _)| k).collect();
    assert_eq!(keys, vec![1, 3, 4, 5, 7, 9]);
    assert!(tree.root.is_none());
}

#[test]
fn iteration_is_ascending() {
    let mut tree = RBTree::new();
    for k in [12, 23, 45, 34, 40, 67, 78, 89, 90, 100] {
        tree.put(k, k);
    }
    let keys = tree.iter().into_iter().map(|x| *x.0).collect::<Vec<i32>>();
    assert_eq!(keys, vec![12, 23, 34, 40, 45, 67, 78, 89, 90, 100]);
}
