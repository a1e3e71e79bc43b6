//! Deletion (top-down, as in Sedgewick's left-leaning red-black trees): on
//! the way down the current node is kept off 2-nodes by borrowing red links,
//! and the tree is rebalanced on the way back up.

use vstd::prelude::*;
use crate::order::{key_lt, key_eq, obeys_key_order, lemma_key_pair};
use crate::sorted::{ascending, removal_of, holds_key, lemma_holds_key_split, lemma_removal_left, lemma_removal_right,
    lemma_removal_by_successor, lemma_ascending_split, lemma_above_excludes,
    lemma_below_excludes, lemma_earlier_below, lemma_below_from_index, lemma_not_below_from_index};
use crate::node::{Link, Node, keys, red, bh, sized, valid, almost, left_of, leans_right,
    lemma_sized_len, lemma_almost_valid, lemma_black_height_zero, is_red, fix_up, move_red_left,
    no_lone_right, lemma_valid_no_lone_right, fixable, ready_to_borrow_left, ready_to_borrow_right,
    move_red_right, rotate_right};

verus! {

broadcast use vstd::seq_lib::group_seq_properties;

/// The shape in which `delete_min_rec` keeps a subtree valid: a valid
/// subtree whose root or root's left child is red.
pub open spec fn min_deletable<T: Ord>(h: Box<Node<T>>) -> bool {
    &&& valid(Some(h))
    &&& (red(Some(h)) || red(h.left))
}

/// Removes the smallest key of a subtree. Returns the new subtree and the key
/// removed. When no node has a right child without a left one, exactly the
/// smallest key goes; on a valid subtree whose root or root's left child is
/// red, the result is valid and keeps the black height.
pub fn delete_min_rec<T: Ord>(mut h: Box<Node<T>>) -> (res: (Link<T>, T))
    requires
        sized(Some(h)),
    ensures
        sized(res.0),
        keys(Some(h)).contains(res.1),
        keys(res.0).len() < keys(Some(h)).len(),
        forall|x: T| #[trigger] keys(res.0).contains(x) ==> keys(Some(h)).contains(x),
        no_lone_right(Some(h)) ==> keys(res.0) == keys(Some(h)).drop_first() && res.1 == keys(
            Some(h),
        )[0],
        min_deletable(h) ==> {
            &&& valid(res.0)
            &&& bh(res.0) == bh(Some(h))
            &&& (red(res.0) ==> red(Some(h)))
        },
    decreases keys(Some(h)).len(),
{
    let ghost h0 = h;
    proof {
        lemma_sized_len(Some(h0));
        if min_deletable(h0) {
            lemma_valid_no_lone_right(Some(h0));
        }
    }
    if h.left.is_none() {
        proof {
            assert(keys(Some(h0)) == seq![h0.key] + keys(h0.right));
            assert(keys(Some(h0))[0] == h0.key);
            if no_lone_right(Some(h0)) {
                assert(keys(Some(h0)) =~= seq![h0.key]);
            }
            if min_deletable(h0) {
                lemma_black_height_zero(h0.right);
            }
        }
        return (None, h.key);
    }
    let left_left_red = match &h.left {
        Some(l) => is_red(&l.left),
        None => false,
    };
    if !is_red(&h.left) && !left_left_red {
        h = move_red_left(h);
    }
    let ghost h1 = h;
    let left = h.left.take().unwrap();
    proof {
        assert(h1.left == Some(left));
        lemma_sized_len(Some(h1));
        if min_deletable(h0) {
            lemma_almost_valid(h1.left);
            assert(min_deletable(left));
        }
    }
    let (new_left, min_key) = delete_min_rec(left);
    h.left = new_left;
    proof {
        lemma_almost_valid(h.left);
        lemma_almost_valid(h.right);
        if no_lone_right(Some(h0)) {
            assert(no_lone_right(Some(left)));
            assert(keys(Some(h)) =~= keys(Some(h1)).drop_first());
        }
        if min_deletable(h0) {
            assert(fixable(h));
        }
    }
    (Some(fix_up(h)), min_key)
}

/// The subtrees that the deletion may descend into: a valid subtree, or a
/// black node leaning right whose key is not above the key sought.
pub open spec fn deletable<T: Ord>(link: Link<T>, key: T) -> bool {
    ||| valid(link)
    ||| (leans_right(link) && !key_lt(key, link.unwrap().key))
}

/// The subtrees on which the deletion keeps the black height and the
/// validity: empty ones, those whose root or root's left child is red, and
/// the right-leaning shape. Only a black root over a black left child (as
/// the root of the whole tree may be) can lose them.
pub open spec fn keeps_height<T: Ord>(link: Link<T>) -> bool {
    ||| link is None
    ||| red(link)
    ||| red(left_of(link))
    ||| leans_right(link)
}

/// Removes `key` from the subtree. Returns the new subtree and whether a key
/// was removed. On any subtree with exact sizes it keeps the sizes exact,
/// adds no key, and changes no key when it reports no removal; on a subtree
/// it may descend into, with keys in ascending order, it removes exactly
/// `key` and keeps the red-black shape.
#[verifier::spinoff_prover]
#[verifier::rlimit(100)]
pub fn delete_rec<T: Ord>(link: Link<T>, key: &T) -> (res: (Link<T>, bool))
    requires
        obeys_key_order::<T>(),
        sized(link),
    ensures
        sized(res.0),
        forall|x: T| #[trigger] keys(res.0).contains(x) ==> keys(link).contains(x),
        !res.1 ==> keys(res.0) == keys(link),
        res.1 ==> keys(res.0).len() < keys(link).len(),
        deletable(link, *key) && ascending(keys(link)) ==> {
            &&& removal_of(keys(link), *key, keys(res.0), res.1)
            &&& almost(res.0)
            &&& (keeps_height(link) ==> valid(res.0) && bh(res.0) == bh(link) && (red(res.0)
                ==> red(link)))
        },
    decreases keys(link).len(),
{
    match link {
        None => {
            proof {
                assert(keys(link) =~= Seq::<T>::empty());
            }
            (None, false)
        },
        Some(mut h) => {
            let ghost h0 = h;
            let ghost s = keys(link);
            let ghost strong = deletable(link, *key) && ascending(s);
            let ghost i0: int = keys(h0.left).len() as int;
            proof {
                lemma_key_pair(*key, h0.key);
                lemma_sized_len(link);
                lemma_almost_valid(h0.left);
                lemma_almost_valid(h0.right);
                assert(s[i0] == h0.key);
                if strong {
                    lemma_ascending_split(keys(h0.left), h0.key, keys(h0.right));
                }
            }
            if key < &h.key {
                proof {
                    if strong {
                        lemma_above_excludes(keys(h0.right), h0.key, *key);
                    }
                }
                if h.left.is_none() {
                    proof {
                        if strong {
                            lemma_key_pair(h0.key, *key);
                            lemma_holds_key_split(keys(h0.left), h0.key, keys(h0.right), *key);
                            assert forall|x: T| s.contains(x) implies !key_eq(x, *key) by {
                                let i = choose|i: int| 0 <= i < s.len() && s[i] == x;
                            }
                        }
                    }
                    return (Some(h), false);
                }
                let left_left_red = match &h.left {
                    Some(l) => is_red(&l.left),
                    None => false,
                };
                if !is_red(&h.left) && !left_left_red {
                    proof {
                        if strong {
                            assert(ready_to_borrow_left(h));
                        }
                    }
                    h = move_red_left(h);
                }
                let ghost h1 = h;
                proof {
                    lemma_sized_len(Some(h1));
                    lemma_almost_valid(h1.left);
                    if strong {
                        let j: int = keys(h1.left).len() as int;
                        lemma_ascending_split(keys(h1.left), h1.key, keys(h1.right));
                        assert(s[j] == h1.key);
                        lemma_below_from_index(s, i0, j, *key);
                        lemma_key_pair(*key, h1.key);
                        lemma_key_pair(h1.key, *key);
                        lemma_above_excludes(keys(h1.right), h1.key, *key);
                    }
                }
                let left = h.left.take();
                let (new_left, deleted) = delete_rec(left, key);
                h.left = new_left;
                proof {
                    lemma_almost_valid(h.left);
                    lemma_almost_valid(h.right);
                    if !deleted {
                        assert(keys(Some(h)) == keys(Some(h1)));
                    }
                    if strong {
                        lemma_removal_left(keys(h1.left), h1.key, keys(h1.right), keys(h.left), *key,
                            deleted);
                        assert(fixable(h));
                    }
                }
                (Some(fix_up(h)), deleted)
            } else {
                if is_red(&h.left) {
                    h = rotate_right(h);
                    let ghost h1 = h;
                    proof {
                        lemma_sized_len(Some(h1));
                        if strong {
                            let l = h0.left.unwrap();
                            assert(h0.left == Some(l));
                            assert(valid(l.left) && valid(l.right) && !red(l.left) && !red(l.right));
                            let hr = h1.right.unwrap();
                            assert(h1.right == Some(hr));
                            assert(valid(Some(hr)));
                            let j: int = keys(h1.left).len() as int;
                            lemma_ascending_split(keys(h1.left), h1.key, keys(h1.right));
                            assert(s[j] == h1.key);
                            lemma_earlier_below(s, j, i0, *key);
                            lemma_key_pair(*key, h1.key);
                            lemma_key_pair(h1.key, *key);
                            lemma_below_excludes(keys(h1.left), h1.key, *key);
                        }
                    }
                    let right = h.right.take();
                    let (new_right, deleted) = delete_rec(right, key);
                    h.right = new_right;
                    proof {
                        lemma_almost_valid(h.left);
                        if !deleted {
                            assert(keys(Some(h)) == keys(Some(h1)));
                        }
                        if strong {
                            lemma_removal_right(keys(h1.left), h1.key, keys(h1.right), keys(h.right),
                                *key, deleted);
                            assert(fixable(h));
                        }
                    }
                    return (Some(fix_up(h)), deleted);
                }
                if key == &h.key && h.right.is_none() {
                    proof {
                        assert(keys(None::<Box<Node<T>>>) =~= Seq::<T>::empty());
                        if strong {
                            lemma_black_height_zero(h0.left);
                            assert(s =~= seq![h0.key]);
                            lemma_key_pair(h0.key, *key);
                            assert(s[0] == h0.key);
                            assert(holds_key(s, *key));
                        }
                    }
                    return (None, true);
                }
                let right_not_red = !is_red(&h.right);
                let right_left_not_red = match &h.right {
                    Some(r) => !is_red(&r.left),
                    None => true,
                };
                if h.right.is_some() && right_not_red && right_left_not_red {
                    proof {
                        if strong {
                            assert(ready_to_borrow_right(h));
                        }
                    }
                    h = move_red_right(h);
                }
                let ghost h1 = h;
                proof {
                    lemma_key_pair(*key, h1.key);
                    lemma_key_pair(h1.key, *key);
                    lemma_sized_len(Some(h1));
                    lemma_almost_valid(h1.left);
                    lemma_almost_valid(h1.right);
                    if strong {
                        let j: int = keys(h1.left).len() as int;
                        lemma_ascending_split(keys(h1.left), h1.key, keys(h1.right));
                        assert(s[j] == h1.key);
                        lemma_not_below_from_index(s, i0, j, *key);
                    }
                }
                if key == &h.key {
                    let right = h.right.take().unwrap();
                    proof {
                        assert(h1.right == Some(right));
                        if strong {
                            let j: int = keys(h1.left).len() as int;
                            if j < i0 {
                                lemma_earlier_below(s, j, i0, *key);
                            }
                            lemma_valid_no_lone_right(h1.right);
                        }
                    }
                    let (new_right, successor) = delete_min_rec(right);
                    h.key = successor;
                    h.right = new_right;
                    proof {
                        assert(keys(h1.right).contains(successor));
                        if strong {
                            lemma_removal_by_successor(keys(h1.left), h1.key, keys(h1.right), *key);
                            assert(keys(Some(h)) == keys(h1.left) + seq![keys(h1.right)[0]]
                                + keys(h1.right).drop_first());
                            assert(min_deletable(right));
                            assert(fixable(h));
                        }
                    }
                    (Some(fix_up(h)), true)
                } else {
                    proof {
                        if strong {
                            lemma_below_excludes(keys(h1.left), h1.key, *key);
                        }
                    }
                    let right = h.right.take();
                    let (new_right, deleted) = delete_rec(right, key);
                    h.right = new_right;
                    proof {
                        if !deleted {
                            assert(keys(Some(h)) == keys(Some(h1)));
                        }
                        if strong {
                            lemma_removal_right(keys(h1.left), h1.key, keys(h1.right), keys(h.right),
                                *key, deleted);
                            assert(fixable(h));
                        }
                    }
                    (Some(fix_up(h)), deleted)
                }
            }
        },
    }
}

} // verus!
