//! The public tree type.

use vstd::prelude::*;
use crate::order::{key_lt, key_eq, obeys_key_order, lemma_key_pair};
use crate::sorted::{ascending, is_rank, holds_key, lemma_holds_key_split, lemma_ascending_split, lemma_above_excludes,
    lemma_below_excludes, lemma_ascending_no_duplicates, lemma_ascending_unique};
use crate::node::{Color, Link, keys, red, bh, sized, valid, no_red_right, no_red_run, black_depth,
    lemma_sized_len, lemma_almost_valid, lemma_valid_shape};
use crate::node::{height, lemma_valid_height, lemma_valid_count};
use crate::insert::insert_rec;
use vstd::arithmetic::power::pow;
use vstd::arithmetic::power2::{pow2, lemma_pow2};
use vstd::arithmetic::logarithm::{log, lemma_log_pow, lemma_log_is_ordered};
use crate::delete::delete_rec;
use crate::query::{derefs, inorder_rec, rank_rec, select_rec, min_rec, max_rec};

verus! {

broadcast use vstd::seq_lib::group_seq_properties;

/// Left-leaning red-black BST.
pub struct RedBlackTree<T: Ord> {
    root: Link<T>,
    size: usize,
}

impl<T: Ord> RedBlackTree<T> {
    /// The keys of the tree in ascending order.
    pub closed spec fn contents(&self) -> Seq<T> {
        keys(self.root)
    }

    /// The tree's internal invariant: the recorded sizes are right, the
    /// shape is a left-leaning red-black tree with a black root, and the keys
    /// are in ascending order.
    pub closed spec fn well_formed(&self) -> bool {
        &&& sized(self.root)
        &&& valid(self.root)
        &&& !red(self.root)
        &&& ascending(keys(self.root))
        &&& self.size as nat == keys(self.root).len()
    }
}

impl<T: Ord> RedBlackTree<T> {
    /// The root of the tree, if any, is black.
    pub closed spec fn root_is_black(&self) -> bool {
        !red(self.root)
    }

    /// No red link leans right.
    pub closed spec fn no_right_leaning_red_link(&self) -> bool {
        no_red_right(self.root)
    }

    /// No path holds two red links in a row.
    pub closed spec fn no_consecutive_red_links(&self) -> bool {
        no_red_run(self.root)
    }

    /// The number of black links from the root down its leftmost path.
    pub closed spec fn black_height(&self) -> nat {
        bh(self.root)
    }

    /// Number of nodes on the longest path from the root down to an empty
    /// subtree.
    pub closed spec fn height(&self) -> nat {
        height(self.root)
    }

    /// The tree stays balanced: its height is at most twice its black
    /// height, which is at most the base-2 logarithm of its number of keys
    /// plus one, so every operation visits O(log n) nodes.
    pub proof fn lemma_height_logarithmic(&self)
        requires
            self.well_formed(),
        ensures
            self.height() <= 2 * self.black_height(),
            pow2(self.black_height()) <= self@.len() + 1,
            self.height() <= 2 * log(2, self@.len() + 1int),
    {
        lemma_valid_height(self.root);
        lemma_valid_count(self.root);
        let b = self.black_height();
        lemma_pow2(b);
        lemma_log_pow(2, b);
        lemma_log_is_ordered(2, pow(2, b), self@.len() + 1int);
    }

    /// Every path from the root down to an empty subtree crosses exactly `d`
    /// black links.
    pub closed spec fn null_paths_black_depth(&self, d: nat) -> bool {
        black_depth(self.root, d)
    }

    /// The red-black invariants hold in every tree the operations build: the
    /// root is black, no red link leans right, no two red links follow each
    /// other, and all paths down to an empty subtree cross the same number of
    /// black links.
    pub proof fn lemma_red_black_shape(&self)
        requires
            self.well_formed(),
        ensures
            self.root_is_black(),
            self.no_right_leaning_red_link(),
            self.no_consecutive_red_links(),
            self.null_paths_black_depth(self.black_height()),
    {
        lemma_valid_shape(self.root);
    }

    /// The keys of a tree are in strictly ascending order, so no key is
    /// stored twice.
    pub proof fn lemma_keys_ascending(&self)
        requires
            self.well_formed(),
        ensures
            ascending(self@),
            obeys_key_order::<T>() ==> self@.no_duplicates(),
    {
        if obeys_key_order::<T>() {
            lemma_ascending_no_duplicates(self@);
        }
    }
}

/// Deleting a key that an insertion has just added gives back the keys the
/// tree held before the insertion.
pub proof fn lemma_delete_undoes_insert<T: Ord>(
    before: RedBlackTree<T>,
    inserted: RedBlackTree<T>,
    after: RedBlackTree<T>,
    key: T,
)
    requires
        obeys_key_order::<T>(),
        before.well_formed(),
        inserted.well_formed(),
        after.well_formed(),
        !holds_key(before@, key),
        forall|x: T| #[trigger] inserted@.contains(x) <==> before@.contains(x) || x == key,
        forall|x: T| #[trigger] after@.contains(x) <==> inserted@.contains(x) && !key_eq(x, key),
    ensures
        after@ == before@,
{
    lemma_key_pair(key, key);
    assert forall|x: T|
        #![trigger after@.contains(x)]
        #![trigger before@.contains(x)]
        after@.contains(x) <==> before@.contains(x) by {
        assert(inserted@.contains(x) <==> before@.contains(x) || x == key);
        if before@.contains(x) {
            let i = choose|i: int| 0 <= i < before@.len() && before@[i] == x;
        }
    }
    lemma_ascending_unique(after@, before@);
}

/// Inserting again a key that a deletion has just removed gives back the
/// keys the tree held before the deletion.
pub proof fn lemma_insert_undoes_delete<T: Ord>(
    before: RedBlackTree<T>,
    deleted: RedBlackTree<T>,
    after: RedBlackTree<T>,
    key: T,
)
    requires
        obeys_key_order::<T>(),
        before.well_formed(),
        deleted.well_formed(),
        after.well_formed(),
        before@.contains(key),
        forall|x: T| #[trigger] deleted@.contains(x) <==> before@.contains(x) && !key_eq(x, key),
        forall|x: T| #[trigger] after@.contains(x) <==> deleted@.contains(x) || x == key,
    ensures
        after@ == before@,
{
    let s = before@;
    assert forall|x: T| s.contains(x) && key_eq(x, key) implies x == key by {
        let i = choose|i: int| 0 <= i < s.len() && s[i] == x;
        let m = choose|m: int| 0 <= m < s.len() && s[m] == key;
        lemma_key_pair(x, key);
        if i < m {
            assert(key_lt(s[i], s[m]));
        } else if m < i {
            assert(key_lt(s[m], s[i]));
        }
    }
    assert forall|x: T|
        #![trigger after@.contains(x)]
        #![trigger before@.contains(x)]
        after@.contains(x) <==> before@.contains(x) by {
        assert(deleted@.contains(x) <==> before@.contains(x) && !key_eq(x, key));
        lemma_key_pair(key, key);
        if before@.contains(x) && key_eq(x, key) {
            assert(x == key);
        }
    }
    lemma_ascending_unique(after@, before@);
}

impl<T: Ord> View for RedBlackTree<T> {
    type V = Seq<T>;

    open spec fn view(&self) -> Seq<T> {
        self.contents()
    }
}

impl<T: Ord> RedBlackTree<T> {
    /// Creates an empty tree.
    pub fn new() -> (t: Self)
        ensures
            t.well_formed(),
            t@ == Seq::<T>::empty(),
    {
        RedBlackTree { root: None, size: 0 }
    }

    /// Inserts a key. Returns `true` if the key was newly inserted,
    /// `false` if an equal key was already present (no duplicates stored;
    /// the stored key is kept and the tree is left as it was).
    pub fn insert(&mut self, key: T) -> (inserted: bool)
        requires
            obeys_key_order::<T>(),
            old(self).well_formed(),
            old(self)@.len() < usize::MAX || holds_key(old(self)@, key),
        ensures
            final(self).well_formed(),
            inserted == !holds_key(old(self)@, key),
            inserted ==> forall|x: T| #[trigger]
                final(self)@.contains(x) <==> old(self)@.contains(x) || x == key,
            final(self)@.len() == old(self)@.len() + if inserted { 1int } else { 0int },
            !inserted ==> *final(self) == *old(self),
            ascending(final(self)@),
    {
        let (new_root, inserted) = insert_rec(self.root.take(), key);
        self.root = new_root;
        if let Some(ref mut root) = self.root {
            root.color = Color::Black;
        }
        proof {
            lemma_almost_valid(self.root);
            lemma_sized_len(self.root);
        }
        if inserted {
            self.size += 1;
        } else {
            proof {
                assert(self.root == old(self).root);
            }
        }
        inserted
    }

    /// Deletes a key. Returns `true` if a key equal to it was found and
    /// removed.
    pub fn delete(&mut self, key: &T) -> (deleted: bool)
        requires
            obeys_key_order::<T>(),
            old(self).well_formed(),
        ensures
            final(self).well_formed(),
            deleted == holds_key(old(self)@, *key),
            forall|x: T| #[trigger]
                final(self)@.contains(x) <==> old(self)@.contains(x) && !key_eq(x, *key),
            final(self)@.len() == old(self)@.len() - if deleted { 1int } else { 0int },
            !deleted ==> final(self)@ == old(self)@,
            ascending(final(self)@),
    {
        let (new_root, deleted) = delete_rec(self.root.take(), key);
        self.root = new_root;
        if let Some(ref mut root) = self.root {
            root.color = Color::Black;
        }
        proof {
            lemma_almost_valid(self.root);
        }
        if deleted {
            self.size -= 1;
        }
        deleted
    }

    /// Returns `true` if the tree contains a key equal to the given key.
    pub fn contains(&self, key: &T) -> (found: bool)
        requires
            obeys_key_order::<T>(),
            self.well_formed(),
        ensures
            found == holds_key(self@, *key),
    {
        let mut current = &self.root;
        loop
            invariant
                obeys_key_order::<T>(),
                ascending(keys(*current)),
                holds_key(self@, *key) <==> holds_key(keys(*current), *key),
            decreases keys(*current).len(),
        {
            match current {
                None => return false,
                Some(ref node) => {
                    proof {
                        lemma_key_pair(*key, node.key);
                        lemma_key_pair(node.key, *key);
                        lemma_ascending_split(keys(node.left), node.key, keys(node.right));
                        lemma_holds_key_split(keys(node.left), node.key, keys(node.right), *key);
                    }
                    if key == &node.key {
                        return true;
                    } else if key < &node.key {
                        proof {
                            lemma_above_excludes(keys(node.right), node.key, *key);
                        }
                        current = &node.left;
                    } else {
                        proof {
                            lemma_below_excludes(keys(node.left), node.key, *key);
                        }
                        current = &node.right;
                    }
                },
            }
        }
    }

    /// Returns all keys in ascending (sorted) order.
    pub fn inorder(&self) -> (v: Vec<&T>)
        requires
            self.well_formed(),
        ensures
            v@.len() == self@.len(),
            forall|i: int| 0 <= i < v@.len() ==> *v@[i] == self@[i],
            ascending(self@),
    {
        let mut result = Vec::with_capacity(self.size);
        inorder_rec(&self.root, &mut result);
        proof {
            assert(derefs(result@).len() == result@.len());
            assert forall|i: int| 0 <= i < result@.len() implies *result@[i] == self@[i] by {
                assert(derefs(result@)[i] == *result@[i]);
            }
        }
        result
    }

    /// Returns the number of keys in the tree.
    pub fn len(&self) -> (n: usize)
        requires
            self.well_formed(),
        ensures
            n == self@.len(),
    {
        self.size
    }

    /// Returns `true` if the tree is empty.
    pub fn is_empty(&self) -> (empty: bool)
        requires
            self.well_formed(),
        ensures
            empty == (self@.len() == 0),
    {
        self.size == 0
    }

    /// Returns the number of keys strictly less than `key`.
    pub fn rank(&self, key: &T) -> (r: usize)
        requires
            obeys_key_order::<T>(),
            self.well_formed(),
        ensures
            is_rank(self@, *key, r as int),
    {
        rank_rec(&self.root, key)
    }

    /// Returns the k-th smallest key (0-indexed), or `None` if out of range.
    pub fn select(&self, k: usize) -> (r: Option<&T>)
        requires
            self.well_formed(),
        ensures
            r == if k < self@.len() { Some(&self@[k as int]) } else { None },
    {
        select_rec(&self.root, k)
    }

    /// Returns a reference to the minimum key, or `None` if empty.
    pub fn min(&self) -> (r: Option<&T>)
        requires
            self.well_formed(),
        ensures
            r == if self@.len() > 0 { Some(&self@[0]) } else { None },
            ascending(self@),
    {
        min_rec(&self.root)
    }

    /// Returns a reference to the maximum key, or `None` if empty.
    pub fn max(&self) -> (r: Option<&T>)
        requires
            self.well_formed(),
        ensures
            r == if self@.len() > 0 { Some(&self@.last()) } else { None },
            ascending(self@),
    {
        max_rec(&self.root)
    }
}

impl<T: Ord> Default for RedBlackTree<T> {
    /// An empty tree.
    fn default() -> (t: Self)
        ensures
            t.well_formed(),
            t@ == Seq::<T>::empty(),
    {
        Self::new()
    }
}

} // verus!
