//! Checks, on concrete keys, of the properties that the library proves.

use llrb::RedBlackTree;
use std::cmp::Ordering;
use std::collections::BTreeSet;

/// A key ordered by its number only: keys with the same number are equal
/// whatever their labels.
#[derive(Debug, Clone)]
struct Labelled {
    number: i32,
    label: &'static str,
}

impl PartialEq for Labelled {
    fn eq(&self, other: &Self) -> bool {
        self.number == other.number
    }
}

impl Eq for Labelled {}

impl PartialOrd for Labelled {
    fn partial_cmp(&self, other: &Self) -> Option<Ordering> {
        Some(self.cmp(other))
    }
}

impl Ord for Labelled {
    fn cmp(&self, other: &Self) -> Ordering {
        self.number.cmp(&other.number)
    }
}

fn labelled(number: i32, label: &'static str) -> Labelled {
    Labelled { number, label }
}

fn keys_of(tree: &RedBlackTree<i32>) -> Vec<i32> {
    tree.inorder().into_iter().copied().collect()
}

/// A small deterministic generator of pseudo-random numbers.
fn next(state: &mut u64) -> u64 {
    *state = state.wrapping_mul(6364136223846793005).wrapping_add(1442695040888963407);
    *state >> 33
}

#[test]
fn test_default_is_empty() {
    let tree: RedBlackTree<i32> = RedBlackTree::default();
    assert!(tree.is_empty());
    assert_eq!(tree.len(), 0);
    assert_eq!(tree.min(), None);
    assert_eq!(tree.max(), None);
    assert_eq!(tree.select(0), None);
}

#[test]
fn test_keys_ascending_without_duplicates() {
    let mut tree = RedBlackTree::new();
    for &v in &[9, 2, 7, 2, 9, 4, 4, 1] {
        tree.insert(v);
    }
    assert_eq!(keys_of(&tree), vec![1, 2, 4, 7, 9]);
    assert_eq!(tree.len(), 5);
}

#[test]
fn test_delete_undoes_insert() {
    let mut tree = RedBlackTree::new();
    for &v in &[50, 20, 80, 10, 30, 70, 90] {
        tree.insert(v);
    }
    let before = keys_of(&tree);
    assert!(tree.insert(25));
    assert!(tree.delete(&25));
    assert_eq!(keys_of(&tree), before);
    assert_eq!(tree.len(), before.len());
}

#[test]
fn test_insert_undoes_delete() {
    let mut tree = RedBlackTree::new();
    for &v in &[50, 20, 80, 10, 30, 70, 90] {
        tree.insert(v);
    }
    let before = keys_of(&tree);
    assert!(tree.delete(&50));
    assert!(!tree.contains(&50));
    assert!(tree.insert(50));
    assert_eq!(keys_of(&tree), before);
}

#[test]
fn test_failed_operations_change_nothing() {
    let mut tree = RedBlackTree::new();
    for &v in &[3, 1, 2] {
        tree.insert(v);
    }
    assert!(!tree.insert(2));
    assert_eq!(keys_of(&tree), vec![1, 2, 3]);
    assert!(!tree.delete(&7));
    assert!(!tree.delete(&0));
    assert_eq!(keys_of(&tree), vec![1, 2, 3]);
    assert_eq!(tree.len(), 3);
}

#[test]
fn test_rank_counts_smaller_keys() {
    let mut tree = RedBlackTree::new();
    for &v in &[10, 20, 30, 40] {
        tree.insert(v);
    }
    assert_eq!(tree.rank(&5), 0);
    assert_eq!(tree.rank(&10), 0);
    assert_eq!(tree.rank(&15), 1);
    assert_eq!(tree.rank(&30), 2);
    assert_eq!(tree.rank(&35), 3);
    assert_eq!(tree.rank(&40), 3);
    assert_eq!(tree.rank(&99), 4);
}

#[test]
fn test_rank_of_selected_key() {
    let mut tree = RedBlackTree::new();
    for &v in &[8, 3, 12, 1, 5, 10, 14] {
        tree.insert(v);
    }
    for i in 0..tree.len() {
        let k = *tree.select(i).unwrap();
        assert_eq!(tree.rank(&k), i);
    }
    assert_eq!(tree.select(tree.len()), None);
    assert_eq!(tree.select(usize::MAX), None);
}

#[test]
fn test_min_max_are_extremes() {
    let mut tree = RedBlackTree::new();
    tree.insert(42);
    assert_eq!(tree.min(), Some(&42));
    assert_eq!(tree.max(), Some(&42));
    for &v in &[7, 99, -3, 50] {
        tree.insert(v);
    }
    assert_eq!(tree.min(), Some(&-3));
    assert_eq!(tree.max(), Some(&99));
    assert_eq!(tree.min(), tree.select(0));
    assert_eq!(tree.max(), tree.select(tree.len() - 1));
}

#[test]
fn test_delete_until_empty() {
    let mut tree = RedBlackTree::new();
    for v in 0..20 {
        tree.insert(v);
    }
    for v in (0..20).rev() {
        assert!(tree.delete(&v));
        assert_eq!(tree.len(), v as usize);
    }
    assert!(tree.is_empty());
    assert_eq!(tree.inorder(), Vec::<&i32>::new());
    assert!(!tree.delete(&0));
}

#[test]
fn test_string_keys() {
    let mut tree = RedBlackTree::new();
    for w in ["pear", "apple", "fig", "apple", "kiwi"] {
        tree.insert(String::from(w));
    }
    let words: Vec<&str> = tree.inorder().into_iter().map(|s| s.as_str()).collect();
    assert_eq!(words, vec!["apple", "fig", "kiwi", "pear"]);
    assert_eq!(tree.rank(&String::from("grape")), 2);
    assert!(tree.delete(&String::from("fig")));
    assert!(!tree.contains(&String::from("fig")));
}

#[test]
fn test_matches_ordered_set_model() {
    let mut state: u64 = 2024;
    let mut tree = RedBlackTree::new();
    let mut model = BTreeSet::new();
    for _ in 0..3000 {
        let k = (next(&mut state) % 200) as i32;
        if next(&mut state) % 3 == 0 {
            assert_eq!(tree.delete(&k), model.remove(&k));
        } else {
            assert_eq!(tree.insert(k), model.insert(k));
        }
        assert_eq!(tree.len(), model.len());
        assert_eq!(tree.contains(&k), model.contains(&k));
        let probe = (next(&mut state) % 210) as i32 - 5;
        assert_eq!(tree.rank(&probe), model.range(..probe).count());
    }
    let expected: Vec<i32> = model.iter().copied().collect();
    assert_eq!(keys_of(&tree), expected);
    for (i, k) in expected.iter().enumerate() {
        assert_eq!(tree.select(i), Some(k));
    }
    assert_eq!(tree.min(), model.iter().next());
    assert_eq!(tree.max(), model.iter().next_back());
}

#[test]
fn test_equal_keys_with_different_labels() {
    let mut tree = RedBlackTree::new();
    assert!(tree.insert(labelled(2, "first")));
    assert!(tree.insert(labelled(1, "one")));
    assert!(!tree.insert(labelled(2, "second")));
    assert_eq!(tree.len(), 2);
    assert_eq!(tree.select(1).unwrap().label, "first");
    assert!(tree.contains(&labelled(2, "other")));
    assert_eq!(tree.rank(&labelled(2, "any")), 1);
    assert!(tree.delete(&labelled(2, "third")));
    assert!(!tree.contains(&labelled(2, "first")));
    assert_eq!(tree.len(), 1);
    assert_eq!(tree.min().unwrap().label, "one");
}

#[test]
fn test_rank_window() {
    let mut tree = RedBlackTree::new();
    for &v in &[5, 1, 9, 3, 7] {
        tree.insert(v);
    }
    let (a, b) = (3, 8);
    let ra = tree.rank(&a);
    let rb = tree.rank(&b);
    assert!(ra <= rb);
    let window: Vec<i32> = (ra..rb).map(|i| *tree.select(i).unwrap()).collect();
    assert_eq!(window, vec![3, 5, 7]);
}
