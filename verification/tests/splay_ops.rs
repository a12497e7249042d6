use splay_tree::BinarySearchTree;
use splay_tree::SplayTree;

fn build(keys: &[u64]) -> SplayTree {
    let mut t = BinarySearchTree::new();
    for &k in keys {
        t.insert(k);
    }
    t
}

fn inorder(t: &BinarySearchTree, out: &mut Vec<u64>) {
    if let Some(n) = &t.root {
        inorder(&n.left, out);
        out.push(n.value);
        inorder(&n.right, out);
    }
}

fn keys_sorted(t: &BinarySearchTree) -> Vec<u64> {
    let mut out = Vec::new();
    inorder(t, &mut out);
    out
}

fn order_invariant_holds(t: &BinarySearchTree) -> bool {
    let keys = keys_sorted(t);
    keys.windows(2).all(|w| w[0] <= w[1])
}

fn encode(t: &BinarySearchTree, out: &mut Vec<Option<u64>>) {
    match &t.root {
        None => out.push(None),
        Some(n) => {
            out.push(Some(n.value));
            encode(&n.left, out);
            encode(&n.right, out);
        }
    }
}

fn shape(t: &BinarySearchTree) -> Vec<Option<u64>> {
    let mut out = Vec::new();
    encode(t, &mut out);
    out
}

fn root_value(t: &BinarySearchTree) -> Option<u64> {
    t.root.as_ref().map(|n| n.value)
}

#[test]
fn search_splay_lifts_present_key_to_root() {
    let mut t = build(&[5, 1, 4, 2, 7, 6, 9]);
    let r = t.search_splay(&5);
    assert!(r.is_some());
    assert_eq!(r.unwrap().value, 5);
    assert_eq!(root_value(&t), Some(5));
    assert!(order_invariant_holds(&t));
}

#[test]
fn search_splay_miss_keeps_keys_and_order() {
    let mut t = build(&[5, 1, 4, 2, 7, 6, 9]);
    let before = keys_sorted(&t);
    let r = t.search_splay(&0);
    assert!(r.is_none());
    assert!(order_invariant_holds(&t));
    assert_eq!(keys_sorted(&t), before);
}

#[test]
fn search_splay_is_idempotent_on_hit() {
    let mut t = build(&[5, 1, 4, 2, 7, 6, 9]);
    assert!(t.search_splay(&4).is_some());
    assert_eq!(root_value(&t), Some(4));
    let first = shape(&t);
    assert!(t.search_splay(&4).is_some());
    assert_eq!(shape(&t), first);
}

#[test]
fn search_splay_every_key_in_turn() {
    let keys = [5u64, 1, 4, 2, 7, 6, 9];
    let mut t = build(&keys);
    for &k in &keys {
        let r = t.search_splay(&k);
        assert_eq!(r.unwrap().value, k);
        assert_eq!(root_value(&t), Some(k));
        assert!(order_invariant_holds(&t));
    }
    for miss in [0u64, 3, 8, 10, 11] {
        assert!(t.search_splay(&miss).is_none());
        assert!(order_invariant_holds(&t));
    }
}

#[test]
fn left_rotate_relinks_in_order() {
    let mut t = build(&[2, 4, 3, 5]);
    t.left_rotate();
    assert_eq!(root_value(&t), Some(4));
    let root = t.root.as_ref().unwrap();
    assert_eq!(root.left.root.as_ref().unwrap().value, 2);
    assert_eq!(
        root.left.root.as_ref().unwrap().right.root.as_ref().unwrap().value,
        3
    );
    assert_eq!(root.right.root.as_ref().unwrap().value, 5);
    assert_eq!(keys_sorted(&t), vec![2, 3, 4, 5]);
}

#[test]
fn right_rotate_relinks_in_order() {
    let mut t = build(&[4, 2, 1, 3, 5]);
    t.right_rotate();
    assert_eq!(root_value(&t), Some(2));
    let root = t.root.as_ref().unwrap();
    assert_eq!(root.left.root.as_ref().unwrap().value, 1);
    let right = root.right.root.as_ref().unwrap();
    assert_eq!(right.value, 4);
    assert_eq!(right.left.root.as_ref().unwrap().value, 3);
    assert_eq!(right.right.root.as_ref().unwrap().value, 5);
    assert_eq!(keys_sorted(&t), vec![1, 2, 3, 4, 5]);
}

#[test]
fn rotate_on_empty_tree_is_noop() {
    let mut t = BinarySearchTree::new();
    t.left_rotate();
    assert!(t.root.is_none());
    t.right_rotate();
    assert!(t.root.is_none());
}

#[test]
fn insert_splay_roots_fresh_key() {
    let mut t = build(&[5, 1, 4]);
    t.insert_splay(3);
    assert_eq!(root_value(&t), Some(3));
    assert!(order_invariant_holds(&t));
    assert_eq!(keys_sorted(&t), vec![1, 3, 4, 5]);
}

#[test]
fn delete_splay_removes_present_key() {
    let mut t = build(&[5, 1, 4, 2, 7, 6, 9]);
    t.delete_splay(4);
    assert!(t.search(4).is_none());
    assert_eq!(keys_sorted(&t), vec![1, 2, 5, 6, 7, 9]);
    assert!(order_invariant_holds(&t));
}

#[test]
fn delete_splay_absent_keeps_keys() {
    let mut t = build(&[5, 1, 4]);
    t.delete_splay(3);
    assert_eq!(keys_sorted(&t), vec![1, 4, 5]);
    assert!(order_invariant_holds(&t));
}

#[test]
fn join_combines_ordered_trees() {
    let t1 = build(&[5, 1, 4, 2, 7, 6, 9]);
    let t2 = build(&[17, 13, 19, 12, 21, 15, 23, 18]);
    let mut joined = SplayTree::join(t1, t2);
    assert_eq!(
        keys_sorted(&joined),
        vec![1, 2, 4, 5, 6, 7, 9, 12, 13, 15, 17, 18, 19, 21, 23]
    );
    assert!(order_invariant_holds(&joined));
    for k in [1u64, 2, 4, 5, 6, 7, 9, 12, 13, 15, 17, 18, 19, 21, 23] {
        assert!(joined.search(k).is_some());
    }
}

#[test]
fn join_with_empty_side() {
    let t1 = BinarySearchTree::new();
    let t2 = build(&[3, 1, 2]);
    let joined = SplayTree::join(t1, t2);
    assert_eq!(keys_sorted(&joined), vec![1, 2, 3]);

    let t3 = build(&[3, 1, 2]);
    let t4 = BinarySearchTree::new();
    let joined2 = SplayTree::join(t3, t4);
    assert_eq!(keys_sorted(&joined2), vec![1, 2, 3]);
}

#[test]
fn split_at_present_pivot() {
    let mut t = build(&[5, 1, 4, 2, 7, 6, 9]);
    let r = t.split(&4);
    let right = r.unwrap();
    assert_eq!(root_value(&t), Some(4));
    assert_eq!(keys_sorted(&t), vec![1, 2, 4]);
    assert_eq!(keys_sorted(&right), vec![5, 6, 7, 9]);
    assert!(order_invariant_holds(&t));
    assert!(order_invariant_holds(&right));
}

#[test]
fn split_at_absent_pivot_partitions_at_boundary() {
    let mut t = build(&[5, 1, 4, 2, 7, 6, 9]);
    let right = t.split(&8).unwrap();
    let boundary = root_value(&t).unwrap();
    assert!(keys_sorted(&t).iter().all(|&k| k <= boundary));
    assert!(keys_sorted(&right).iter().all(|&k| k >= boundary));
    let mut all = keys_sorted(&t);
    all.extend(keys_sorted(&right));
    all.sort();
    assert_eq!(all, vec![1, 2, 4, 5, 6, 7, 9]);
}

#[test]
fn split_of_empty_tree_is_none() {
    let mut t = BinarySearchTree::new();
    assert!(t.split(&3).is_none());
    assert!(t.root.is_none());
}

#[test]
fn split_then_join_restores_keys() {
    let original = vec![1u64, 2, 4, 5, 6, 7, 9];
    let mut t = build(&[5, 1, 4, 2, 7, 6, 9]);
    let right = t.split(&4).unwrap();
    let rejoined = SplayTree::join(t, right);
    assert_eq!(keys_sorted(&rejoined), original);
    assert!(order_invariant_holds(&rejoined));
}

#[test]
fn splay_on_absent_key_roots_last_visited_node() {
    // the comparison path toward 3 runs 5, 1, 4, 2 and stops at 2
    let mut t = build(&[5, 1, 4, 2, 7, 6, 9]);
    assert!(t.search_splay(&3).is_none());
    assert_eq!(root_value(&t), Some(2));
    assert!(order_invariant_holds(&t));

    // toward 8 it runs 5, 7, 9 and stops at 9
    let mut u = build(&[5, 1, 4, 2, 7, 6, 9]);
    assert!(u.search_splay(&8).is_none());
    assert_eq!(root_value(&u), Some(9));
}

#[test]
fn split_boundary_is_last_visited_key() {
    let mut t = build(&[5, 1, 4, 2, 7, 6, 9]);
    let right = t.split(&8).unwrap();
    assert_eq!(root_value(&t), Some(9));
    assert!(right.root.is_none());
    assert_eq!(keys_sorted(&t), vec![1, 2, 4, 5, 6, 7, 9]);
}

#[test]
fn join_roots_left_maximum_and_hangs_right_tree_unchanged() {
    let t1 = build(&[2, 1]);
    let t2 = build(&[5, 4, 6]);
    let t2_shape = shape(&t2);
    let joined = SplayTree::join(t1, t2);
    let root = joined.root.as_ref().unwrap();
    assert_eq!(root.value, 2);
    assert_eq!(keys_sorted(&root.left), vec![1]);
    assert_eq!(shape(&root.right), t2_shape);
}

#[test]
fn delete_splay_absent_key_allowed_under_duplicates() {
    // the path toward 4 runs 5, 5, 3 and stops at 3
    let mut t = build(&[5, 5, 3]);
    t.delete_splay(4);
    assert_eq!(keys_sorted(&t), vec![3, 5, 5]);
    assert_eq!(root_value(&t), Some(3));
    assert!(order_invariant_holds(&t));
}
