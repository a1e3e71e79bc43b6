//! Scenarios of inserting, deleting and querying keys.

use llrb::RedBlackTree;
use std::collections::HashSet;

#[test]
fn test_new_empty() {
    let tree: RedBlackTree<i32> = RedBlackTree::new();
    assert!(tree.is_empty());
    assert_eq!(tree.len(), 0);
}

#[test]
fn test_insert_contains() {
    let mut tree = RedBlackTree::new();
    tree.insert(5);
    assert!(tree.contains(&5));
}

#[test]
fn test_insert_new_returns_true() {
    let mut tree = RedBlackTree::new();
    assert!(tree.insert(42));
}

#[test]
fn test_insert_dup_returns_false() {
    let mut tree = RedBlackTree::new();
    tree.insert(5);
    let len_before = tree.len();
    assert!(!tree.insert(5));
    assert_eq!(tree.len(), len_before);
}

#[test]
fn test_contains_miss_empty() {
    let tree: RedBlackTree<i32> = RedBlackTree::new();
    assert!(!tree.contains(&10));
}

#[test]
fn test_contains_miss_after_inserts() {
    let mut tree = RedBlackTree::new();
    tree.insert(1);
    tree.insert(2);
    tree.insert(3);
    assert!(!tree.contains(&99));
}

#[test]
fn test_inorder_empty() {
    let tree: RedBlackTree<i32> = RedBlackTree::new();
    assert_eq!(tree.inorder(), Vec::<&i32>::new());
}

#[test]
fn test_inorder_single() {
    let mut tree = RedBlackTree::new();
    tree.insert(7);
    assert_eq!(tree.inorder(), vec![&7]);
}

#[test]
fn test_inorder_sorted() {
    let mut tree = RedBlackTree::new();
    for &v in &[5, 3, 7, 1, 4, 6, 8] {
        tree.insert(v);
    }
    assert_eq!(tree.inorder(), vec![&1, &3, &4, &5, &6, &7, &8]);
}

#[test]
fn test_len_increments() {
    let mut tree = RedBlackTree::new();
    for i in 0..10 {
        assert_eq!(tree.len(), i);
        tree.insert(i);
    }
    assert_eq!(tree.len(), 10);
}

#[test]
fn test_delete_empty_false() {
    let mut tree: RedBlackTree<i32> = RedBlackTree::new();
    assert!(!tree.delete(&5));
}

#[test]
fn test_delete_leaf() {
    let mut tree = RedBlackTree::new();
    tree.insert(5);
    assert!(tree.delete(&5));
    assert!(tree.is_empty());
    assert!(!tree.contains(&5));
}

#[test]
fn test_delete_two_children() {
    let mut tree = RedBlackTree::new();
    for &v in &[5, 3, 7, 1, 4, 6, 8] {
        tree.insert(v);
    }
    assert!(tree.delete(&5));
    assert!(!tree.contains(&5));
    assert_eq!(tree.len(), 6);
}

#[test]
fn test_delete_nonexistent_false() {
    let mut tree = RedBlackTree::new();
    tree.insert(1);
    tree.insert(2);
    assert!(!tree.delete(&99));
}

#[test]
fn test_delete_inorder_still_sorted() {
    let mut tree = RedBlackTree::new();
    for &v in &[5, 3, 7, 1, 4, 6, 8] {
        tree.insert(v);
    }
    tree.delete(&3);
    tree.delete(&7);
    let keys: Vec<i32> = tree.inorder().into_iter().copied().collect();
    let mut sorted = keys.clone();
    sorted.sort();
    assert_eq!(keys, sorted);
}

#[test]
fn test_min_empty() {
    let tree: RedBlackTree<i32> = RedBlackTree::new();
    assert_eq!(tree.min(), None);
}

#[test]
fn test_min_after_inserts() {
    let mut tree = RedBlackTree::new();
    for &v in &[3, 1, 4, 1, 5] {
        tree.insert(v);
    }
    assert_eq!(tree.min(), Some(&1));
}

#[test]
fn test_max_after_inserts() {
    let mut tree = RedBlackTree::new();
    for &v in &[3, 1, 4, 5] {
        tree.insert(v);
    }
    assert_eq!(tree.max(), Some(&5));
}

#[test]
fn test_rank_empty() {
    let tree: RedBlackTree<i32> = RedBlackTree::new();
    assert_eq!(tree.rank(&5), 0);
}

#[test]
fn test_rank_basic() {
    let mut tree = RedBlackTree::new();
    for &v in &[1, 2, 3, 4, 5] {
        tree.insert(v);
    }
    assert_eq!(tree.rank(&3), 2);
}

#[test]
fn test_rank_min() {
    let mut tree = RedBlackTree::new();
    for &v in &[4, 2, 6, 1, 3] {
        tree.insert(v);
    }
    let min_val = *tree.min().unwrap();
    assert_eq!(tree.rank(&min_val), 0);
}

#[test]
fn test_rank_max() {
    let mut tree = RedBlackTree::new();
    for &v in &[4, 2, 6, 1, 3] {
        tree.insert(v);
    }
    let max_val = *tree.max().unwrap();
    assert_eq!(tree.rank(&max_val), tree.len() - 1);
}

#[test]
fn test_select_basic() {
    let mut tree = RedBlackTree::new();
    for &v in &[5, 3, 7, 1] {
        tree.insert(v);
    }
    assert_eq!(tree.select(0), Some(&1));
    assert_eq!(tree.select(1), Some(&3));
}

#[test]
fn test_select_out_of_range() {
    let mut tree = RedBlackTree::new();
    tree.insert(1);
    tree.insert(2);
    assert_eq!(tree.select(100), None);
}

#[test]
fn test_rank_select_inverse() {
    let mut tree = RedBlackTree::new();
    for &v in &[10, 5, 15, 3, 7, 12, 20] {
        tree.insert(v);
    }
    let keys: Vec<i32> = tree.inorder().into_iter().copied().collect();
    for k in &keys {
        let r = tree.rank(k);
        assert_eq!(tree.select(r), Some(k));
    }
}

#[test]
fn test_mass_insert_inorder() {
    let mut rng_state: u64 = 12345;
    let mut vals: Vec<i32> = (1..=100).collect();
    // Simple LCG shuffle
    for i in (1..vals.len()).rev() {
        rng_state = rng_state.wrapping_mul(6364136223846793005).wrapping_add(1442695040888963407);
        let j = (rng_state >> 33) as usize % (i + 1);
        vals.swap(i, j);
    }

    let mut tree = RedBlackTree::new();
    let mut seen = HashSet::new();
    for v in vals {
        let first_time = seen.insert(v);
        let result = tree.insert(v);
        assert_eq!(result, first_time);
    }
    let expected: Vec<i32> = (1..=100).collect();
    let got: Vec<i32> = tree.inorder().into_iter().copied().collect();
    assert_eq!(got, expected);
}

#[test]
fn test_mass_delete() {
    let mut tree = RedBlackTree::new();
    for v in 1..=50 {
        tree.insert(v);
    }
    for v in (2..=50).step_by(2) {
        assert!(tree.delete(&v));
    }
    assert_eq!(tree.len(), 25);
    let keys: Vec<i32> = tree.inorder().into_iter().copied().collect();
    for k in &keys {
        assert_eq!(k % 2, 1, "found even key {k} after deleting all evens");
    }
}

#[test]
fn test_color_invariant_after_inserts() {
    let mut tree = RedBlackTree::new();
    for &v in &[3, 1, 4, 1, 5, 9, 2, 6] {
        tree.insert(v);
    }
    // Verify we can still do operations correctly (invariants maintained by algorithm)
    assert!(tree.contains(&3));
    assert!(tree.contains(&9));
    assert!(!tree.contains(&7));
    let keys: Vec<i32> = tree.inorder().into_iter().copied().collect();
    let mut sorted = keys.clone();
    sorted.sort();
    assert_eq!(keys, sorted);
}
