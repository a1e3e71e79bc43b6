//! Insertion: descend to the key's place, attach a red leaf, and rebalance
//! on the way back up.

use vstd::prelude::*;
use crate::order::{obeys_key_order, lemma_key_pair};
use crate::sorted::{ascending, holds_key, lemma_holds_key_split, lemma_ascending_split, lemma_above_excludes, lemma_below_excludes,
    lemma_above_from_members, lemma_below_from_members};
use crate::node::{Color, Link, Node, keys, red, bh, sized, valid, almost, lemma_sized_len,
    lemma_almost_valid, fix_up, fixable};

verus! {

broadcast use vstd::seq_lib::group_seq_properties;

/// Inserts `key` into the subtree. Returns the new subtree and whether no
/// key equal to `key` was there (an equal key already present is kept, and
/// `key` is dropped). On any subtree with exact sizes and keys in ascending
/// order it adds exactly `key` or nothing; on a valid subtree it also keeps
/// the red-black shape, and leaves the subtree untouched when an equal key is
/// present.
pub fn insert_rec<T: Ord>(link: Link<T>, key: T) -> (res: (Link<T>, bool))
    requires
        obeys_key_order::<T>(),
        sized(link),
        ascending(keys(link)),
        keys(link).len() < usize::MAX || holds_key(keys(link), key),
    ensures
        res.1 == !holds_key(keys(link), key),
        res.1 ==> forall|x: T| #[trigger]
            keys(res.0).contains(x) <==> keys(link).contains(x) || x == key,
        !res.1 ==> keys(res.0) == keys(link),
        keys(res.0).len() == keys(link).len() + if res.1 { 1int } else { 0int },
        ascending(keys(res.0)),
        sized(res.0),
        res.0 is Some,
        link is None ==> red(res.0) && keys(res.0) == seq![key],
        valid(link) ==> {
            &&& almost(res.0)
            &&& bh(res.0) == bh(link)
            &&& (!red(link) ==> valid(res.0))
            &&& (!res.1 ==> res.0 == link)
        },
    decreases link,
{
    match link {
        None => {
            let node = Node::new(key, Color::Red);
            proof {
                assert(keys(Some(node)) =~= seq![key]);
            }
            (Some(node), true)
        },
        Some(mut h) => {
            let ghost h0 = h;
            proof {
                lemma_key_pair(key, h0.key);
                lemma_key_pair(h0.key, key);
                lemma_holds_key_split(keys(h0.left), h0.key, keys(h0.right), key);
                lemma_ascending_split(keys(h0.left), h0.key, keys(h0.right));
                lemma_sized_len(link);
                lemma_almost_valid(h0.left);
                lemma_almost_valid(h0.right);
            }
            let inserted: bool;
            if key < h.key {
                proof {
                    lemma_above_excludes(keys(h0.right), h0.key, key);
                }
                let (new_left, ins) = insert_rec(h.left.take(), key);
                h.left = new_left;
                inserted = ins;
                proof {
                    lemma_below_from_members(keys(h0.left), keys(h.left), h0.key, key);
                    lemma_ascending_split(keys(h.left), h.key, keys(h.right));
                    lemma_almost_valid(h.left);
                    if !ins {
                        assert(keys(Some(h)) == keys(link));
                    }
                    if valid(link) {
                        assert(fixable(h));
                        if !ins {
                            assert(h == h0);
                        }
                    }
                }
            } else if key > h.key {
                proof {
                    lemma_below_excludes(keys(h0.left), h0.key, key);
                }
                let (new_right, ins) = insert_rec(h.right.take(), key);
                h.right = new_right;
                inserted = ins;
                proof {
                    lemma_above_from_members(keys(h0.right), keys(h.right), h0.key, key);
                    lemma_ascending_split(keys(h.left), h.key, keys(h.right));
                    if !ins {
                        assert(keys(Some(h)) == keys(link));
                    }
                    if valid(link) {
                        assert(fixable(h));
                        if !ins {
                            assert(h == h0);
                        }
                    }
                }
            } else {
                return (Some(h), false);
            }
            (Some(fix_up(h)), inserted)
        },
    }
}

} // verus!
