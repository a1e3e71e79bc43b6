//! Read-only walks over the tree: the keys in order, rank, selection by
//! rank, and the extreme keys.

use vstd::prelude::*;
use crate::order::{key_lt, obeys_key_order, lemma_key_pair};
use crate::sorted::{ascending, is_rank, lemma_ascending_split, lemma_above_from_index,
    lemma_not_above_from_index};
use crate::node::{Link, keys, sized, lemma_sized_len, node_size};

verus! {

/// The keys that a sequence of references points to.
pub open spec fn derefs<T>(s: Seq<&T>) -> Seq<T> {
    s.map_values(|r: &T| *r)
}

/// Appends references to the keys of the subtree, in order, to `result`.
pub fn inorder_rec<'a, T: Ord>(link: &'a Link<T>, result: &mut Vec<&'a T>)
    ensures
        derefs(final(result)@) == derefs(old(result)@) + keys(*link),
    decreases *link,
{
    if let Some(ref node) = link {
        let ghost r0 = result@;
        inorder_rec(&node.left, result);
        let ghost r1 = result@;
        result.push(&node.key);
        proof {
            assert(derefs(result@) =~= derefs(r1) + seq![node.key]);
        }
        inorder_rec(&node.right, result);
        proof {
            assert(derefs(result@) =~= derefs(r0) + keys(*link));
        }
    } else {
        proof {
            assert(derefs(result@) =~= derefs(result@) + keys(*link));
        }
    }
}

/// The number of keys of the subtree that sort strictly before `key`.
pub fn rank_rec<T: Ord>(link: &Link<T>, key: &T) -> (r: usize)
    requires
        obeys_key_order::<T>(),
        sized(*link),
        ascending(keys(*link)),
    ensures
        is_rank(keys(*link), *key, r as int),
    decreases *link,
{
    match link {
        None => 0,
        Some(ref node) => {
            let ghost s = keys(*link);
            let ghost n: int = keys(node.left).len() as int;
            proof {
                lemma_key_pair(*key, node.key);
                lemma_ascending_split(keys(node.left), node.key, keys(node.right));
                lemma_sized_len(*link);
                lemma_sized_len(node.left);
                assert(s[n] == node.key);
            }
            if key <= &node.key {
                let r: usize = rank_rec(&node.left, key);
                proof {
                    assert forall|i: int| r <= i < s.len() implies !key_lt(#[trigger] s[i], *key) by {
                        if i < n {
                            assert(s[i] == keys(node.left)[i]);
                        } else {
                            lemma_not_above_from_index(s, n, i, *key);
                        }
                    }
                    assert forall|i: int| 0 <= i < r implies key_lt(#[trigger] s[i], *key) by {
                        assert(s[i] == keys(node.left)[i]);
                    }
                }
                r
            } else {
                let r: usize = rank_rec(&node.right, key);
                proof {
                    let rr: int = r as int;
                    assert forall|i: int| 0 <= i < n + 1 + rr implies key_lt(#[trigger] s[i], *key) by {
                        if i <= n {
                            lemma_above_from_index(s, n, i, *key);
                        } else {
                            assert(s[i] == keys(node.right)[i - n - 1]);
                        }
                    }
                    assert forall|i: int| n + 1 + rr <= i < s.len() implies !key_lt(#[trigger] s[i], *key) by {
                        assert(s[i] == keys(node.right)[i - n - 1]);
                    }
                }
                1 + node_size(&node.left) + r
            }
        },
    }
}

/// The key of rank `k` (0-based) in the subtree, if there is one.
pub fn select_rec<T: Ord>(link: &Link<T>, k: usize) -> (r: Option<&T>)
    requires
        sized(*link),
    ensures
        r == if k < keys(*link).len() { Some(&keys(*link)[k as int]) } else { None },
    decreases *link,
{
    match link {
        None => None,
        Some(ref node) => {
            proof {
                lemma_sized_len(node.left);
            }
            let left_size: usize = node_size(&node.left);
            if k < left_size {
                select_rec(&node.left, k)
            } else if k == left_size {
                Some(&node.key)
            } else {
                select_rec(&node.right, k - left_size - 1)
            }
        },
    }
}

/// The smallest key of the subtree, if there is one.
pub fn min_rec<T: Ord>(link: &Link<T>) -> (r: Option<&T>)
    ensures
        r == if keys(*link).len() > 0 { Some(&keys(*link)[0]) } else { None },
    decreases *link,
{
    match link {
        None => None,
        Some(ref node) => {
            proof {
                assert(keys(*link) == keys(node.left) + seq![node.key] + keys(node.right));
                if node.left is Some {
                    assert(keys(node.left).len() > 0);
                }
            }
            if node.left.is_none() {
                Some(&node.key)
            } else {
                min_rec(&node.left)
            }
        },
    }
}

/// The largest key of the subtree, if there is one.
pub fn max_rec<T: Ord>(link: &Link<T>) -> (r: Option<&T>)
    ensures
        r == if keys(*link).len() > 0 { Some(&keys(*link).last()) } else { None },
    decreases *link,
{
    match link {
        None => None,
        Some(ref node) => {
            proof {
                assert(keys(*link) == keys(node.left) + seq![node.key] + keys(node.right));
                if node.right is Some {
                    assert(keys(node.right).len() > 0);
                }
            }
            if node.right.is_none() {
                Some(&node.key)
            } else {
                max_rec(&node.right)
            }
        },
    }
}

} // verus!
