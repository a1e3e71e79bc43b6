//! Strictly ascending sequences of keys, and the facts about them that the
//! tree operations use.

use vstd::prelude::*;
use crate::order::{key_lt, key_eq, obeys_key_order, lemma_key_pair, lemma_key_trans,
    lemma_key_eq_order};

verus! {

/// Each key sorts strictly before every later one.
pub open spec fn ascending<T: Ord>(s: Seq<T>) -> bool {
    forall|i: int, j: int| 0 <= i < j < s.len() ==> key_lt(#[trigger] s[i], #[trigger] s[j])
}

/// Every key of `s` sorts strictly before `k`.
pub open spec fn all_below<T: Ord>(s: Seq<T>, k: T) -> bool {
    forall|i: int| 0 <= i < s.len() ==> key_lt(#[trigger] s[i], k)
}

/// Every key of `s` sorts strictly after `k`.
pub open spec fn all_above<T: Ord>(s: Seq<T>, k: T) -> bool {
    forall|i: int| 0 <= i < s.len() ==> key_lt(k, #[trigger] s[i])
}

/// Some key of `s` equals `key`.
pub open spec fn holds_key<T: Ord>(s: Seq<T>, key: T) -> bool {
    exists|i: int| 0 <= i < s.len() && key_eq(#[trigger] s[i], key)
}

/// A key that `s` holds as a value is a key equal to one of `s`.
pub proof fn lemma_contains_holds<T: Ord>(s: Seq<T>, x: T)
    requires
        obeys_key_order::<T>(),
        s.contains(x),
    ensures
        holds_key(s, x),
{
    let i = choose|i: int| 0 <= i < s.len() && s[i] == x;
    lemma_key_pair(s[i], x);
}

/// A sequence split around one key holds a key equal to `x` exactly when
/// one of its parts or the key in the middle does.
pub proof fn lemma_holds_key_split<T: Ord>(a: Seq<T>, k: T, b: Seq<T>, x: T)
    ensures
        holds_key(a + seq![k] + b, x) <==> holds_key(a, x) || key_eq(k, x) || holds_key(b, x),
{
    let s = a + seq![k] + b;
    if holds_key(s, x) {
        let i = choose|i: int| 0 <= i < s.len() && key_eq(#[trigger] s[i], x);
        if i < a.len() {
            assert(a[i] == s[i]);
        } else if i > a.len() {
            assert(b[i - a.len() - 1] == s[i]);
        }
    }
    if holds_key(a, x) {
        let i = choose|i: int| 0 <= i < a.len() && key_eq(#[trigger] a[i], x);
        assert(s[i] == a[i]);
    }
    if key_eq(k, x) {
        assert(s[a.len() as int] == k);
    }
    if holds_key(b, x) {
        let i = choose|i: int| 0 <= i < b.len() && key_eq(#[trigger] b[i], x);
        assert(s[a.len() + 1 + i] == b[i]);
    }
}

/// A sequence split around one key is ascending exactly when both sides
/// are, the left side lies below the key and the right side above it.
pub proof fn lemma_ascending_split<T: Ord>(a: Seq<T>, k: T, b: Seq<T>)
    requires
        obeys_key_order::<T>(),
    ensures
        ascending(a + seq![k] + b) <==> (ascending(a) && ascending(b) && all_below(a, k)
            && all_above(b, k)),
{
    let s = a + seq![k] + b;
    if ascending(s) {
        assert forall|i: int, j: int| 0 <= i < j < a.len() implies key_lt(
            #[trigger] a[i],
            #[trigger] a[j],
        ) by {
            assert(s[i] == a[i] && s[j] == a[j]);
        }
        assert forall|i: int, j: int| 0 <= i < j < b.len() implies key_lt(
            #[trigger] b[i],
            #[trigger] b[j],
        ) by {
            assert(s[a.len() + 1 + i] == b[i] && s[a.len() + 1 + j] == b[j]);
        }
        assert forall|i: int| 0 <= i < a.len() implies key_lt(#[trigger] a[i], k) by {
            assert(s[i] == a[i] && s[a.len() as int] == k);
        }
        assert forall|i: int| 0 <= i < b.len() implies key_lt(k, #[trigger] b[i]) by {
            assert(s[a.len() + 1 + i] == b[i] && s[a.len() as int] == k);
        }
    }
    if ascending(a) && ascending(b) && all_below(a, k) && all_above(b, k) {
        assert forall|i: int, j: int| 0 <= i < j < s.len() implies key_lt(
            #[trigger] s[i],
            #[trigger] s[j],
        ) by {
            let n = a.len() as int;
            if j < n {
                assert(s[i] == a[i] && s[j] == a[j]);
            } else if j == n {
                assert(s[i] == a[i]);
            } else if i > n {
                assert(s[i] == b[i - n - 1] && s[j] == b[j - n - 1]);
            } else if i == n {
                assert(s[j] == b[j - n - 1]);
            } else {
                assert(s[i] == a[i] && s[j] == b[j - n - 1]);
                lemma_key_trans(a[i], k, b[j - n - 1]);
            }
        }
    }
}

/// A key at or below `k` is not among keys that all sort after `k`.
pub proof fn lemma_above_excludes<T: Ord>(s: Seq<T>, k: T, x: T)
    requires
        obeys_key_order::<T>(),
        all_above(s, k),
        !key_lt(k, x),
    ensures
        !s.contains(x),
        !holds_key(s, x),
{
    if holds_key(s, x) {
        let i = choose|i: int| 0 <= i < s.len() && key_eq(#[trigger] s[i], x);
        lemma_key_eq_order(k, s[i], x);
    }
    if s.contains(x) {
        lemma_contains_holds(s, x);
    }
}

/// A key at or above `k` is not among keys that all sort before `k`.
pub proof fn lemma_below_excludes<T: Ord>(s: Seq<T>, k: T, x: T)
    requires
        obeys_key_order::<T>(),
        all_below(s, k),
        !key_lt(x, k),
    ensures
        !s.contains(x),
        !holds_key(s, x),
{
    if holds_key(s, x) {
        let i = choose|i: int| 0 <= i < s.len() && key_eq(#[trigger] s[i], x);
        lemma_key_eq_order(k, s[i], x);
    }
    if s.contains(x) {
        lemma_contains_holds(s, x);
    }
}

/// Keys that are all drawn from `s1`, or equal `x`, lie above `k` when those
/// of `s1` and `x` do.
pub proof fn lemma_above_from_members<T: Ord>(s1: Seq<T>, s2: Seq<T>, k: T, x: T)
    requires
        all_above(s1, k),
        key_lt(k, x),
        forall|y: T| #[trigger] s2.contains(y) ==> s1.contains(y) || y == x,
    ensures
        all_above(s2, k),
{
    assert forall|i: int| 0 <= i < s2.len() implies key_lt(k, #[trigger] s2[i]) by {
        assert(s2.contains(s2[i]));
        if s1.contains(s2[i]) {
            let j = choose|j: int| 0 <= j < s1.len() && s1[j] == s2[i];
            assert(key_lt(k, s1[j]));
        }
    }
}

/// Keys that are all drawn from `s1`, or equal `x`, lie below `k` when those
/// of `s1` and `x` do.
pub proof fn lemma_below_from_members<T: Ord>(s1: Seq<T>, s2: Seq<T>, k: T, x: T)
    requires
        all_below(s1, k),
        key_lt(x, k),
        forall|y: T| #[trigger] s2.contains(y) ==> s1.contains(y) || y == x,
    ensures
        all_below(s2, k),
{
    assert forall|i: int| 0 <= i < s2.len() implies key_lt(#[trigger] s2[i], k) by {
        assert(s2.contains(s2[i]));
        if s1.contains(s2[i]) {
            let j = choose|j: int| 0 <= j < s1.len() && s1[j] == s2[i];
            assert(key_lt(s1[j], k));
        }
    }
}

/// In an ascending sequence, a key below the element at `i` is below every
/// later element.
pub proof fn lemma_below_from_index<T: Ord>(s: Seq<T>, i: int, j: int, x: T)
    requires
        obeys_key_order::<T>(),
        ascending(s),
        0 <= i <= j < s.len(),
        key_lt(x, s[i]),
    ensures
        key_lt(x, s[j]),
{
    if i < j {
        lemma_key_trans(x, s[i], s[j]);
    }
}

/// In an ascending sequence, a key not below the element at `i` is not
/// below any earlier element.
pub proof fn lemma_not_below_from_index<T: Ord>(s: Seq<T>, i: int, j: int, x: T)
    requires
        obeys_key_order::<T>(),
        ascending(s),
        0 <= j <= i < s.len(),
        !key_lt(x, s[i]),
    ensures
        !key_lt(x, s[j]),
{
    if j < i && key_lt(x, s[j]) {
        lemma_key_trans(x, s[j], s[i]);
    }
}

/// `t` holds the keys of `s` but those equal to `key`, in ascending order,
/// and `removed` tells whether `s` held a key equal to `key`.
pub open spec fn removal_of<T: Ord>(s: Seq<T>, key: T, t: Seq<T>, removed: bool) -> bool {
    &&& removed == holds_key(s, key)
    &&& forall|x: T| #[trigger] t.contains(x) <==> s.contains(x) && !key_eq(x, key)
    &&& t.len() == s.len() - if removed { 1int } else { 0int }
    &&& ascending(t)
}

/// Removing a key from the left part of an ascending sequence split around
/// `k`, when neither `k` nor a key of the right part equals it, removes it
/// from the whole sequence.
pub proof fn lemma_removal_left<T: Ord>(a: Seq<T>, k: T, b: Seq<T>, a2: Seq<T>, key: T, d: bool)
    requires
        obeys_key_order::<T>(),
        ascending(a + seq![k] + b),
        removal_of(a, key, a2, d),
        !key_eq(k, key),
        !holds_key(b, key),
    ensures
        removal_of(a + seq![k] + b, key, a2 + seq![k] + b, d),
{
    broadcast use vstd::seq_lib::group_seq_properties;
    lemma_ascending_split(a, k, b);
    lemma_holds_key_split(a, k, b, key);
    assert forall|i: int| 0 <= i < a2.len() implies key_lt(#[trigger] a2[i], k) by {
        assert(a2.contains(a2[i]));
        let j = choose|j: int| 0 <= j < a.len() && a[j] == a2[i];
    }
    lemma_ascending_split(a2, k, b);
    assert forall|x: T| b.contains(x) implies !key_eq(x, key) by {
        let j = choose|j: int| 0 <= j < b.len() && b[j] == x;
    }
}

/// Removing a key from the right part of an ascending sequence split around
/// `k`, when neither `k` nor a key of the left part equals it, removes it
/// from the whole sequence.
pub proof fn lemma_removal_right<T: Ord>(a: Seq<T>, k: T, b: Seq<T>, b2: Seq<T>, key: T, d: bool)
    requires
        obeys_key_order::<T>(),
        ascending(a + seq![k] + b),
        removal_of(b, key, b2, d),
        !key_eq(k, key),
        !holds_key(a, key),
    ensures
        removal_of(a + seq![k] + b, key, a + seq![k] + b2, d),
{
    broadcast use vstd::seq_lib::group_seq_properties;
    lemma_ascending_split(a, k, b);
    lemma_holds_key_split(a, k, b, key);
    assert forall|i: int| 0 <= i < b2.len() implies key_lt(k, #[trigger] b2[i]) by {
        assert(b2.contains(b2[i]));
        let j = choose|j: int| 0 <= j < b.len() && b[j] == b2[i];
    }
    lemma_ascending_split(a, k, b2);
    assert forall|x: T| a.contains(x) implies !key_eq(x, key) by {
        let j = choose|j: int| 0 <= j < a.len() && a[j] == x;
    }
}

/// Replacing `k`, a key equal to `key`, by the first key of the right part,
/// and dropping that key from the right part, removes `key` from an
/// ascending sequence.
pub proof fn lemma_removal_by_successor<T: Ord>(a: Seq<T>, k: T, b: Seq<T>, key: T)
    requires
        obeys_key_order::<T>(),
        ascending(a + seq![k] + b),
        b.len() > 0,
        key_eq(k, key),
    ensures
        removal_of(a + seq![k] + b, key, a + seq![b[0]] + b.drop_first(), true),
{
    broadcast use vstd::seq_lib::group_seq_properties;
    let s = a + seq![k] + b;
    let t = a + seq![b[0]] + b.drop_first();
    lemma_ascending_split(a, k, b);
    lemma_key_pair(k, k);
    assert(s[a.len() as int] == k);
    assert(holds_key(s, key));
    assert forall|i: int| 0 <= i < a.len() implies key_lt(#[trigger] a[i], b[0]) by {
        lemma_key_trans(a[i], k, b[0]);
    }
    assert forall|i: int| 0 <= i < b.drop_first().len() implies key_lt(
        b[0],
        #[trigger] b.drop_first()[i],
    ) by {
        assert(b.drop_first()[i] == b[i + 1]);
    }
    assert forall|i: int, j: int| 0 <= i < j < b.drop_first().len() implies key_lt(
        #[trigger] b.drop_first()[i],
        #[trigger] b.drop_first()[j],
    ) by {
        assert(b.drop_first()[i] == b[i + 1] && b.drop_first()[j] == b[j + 1]);
    }
    lemma_ascending_split(a, b[0], b.drop_first());
    assert(b =~= seq![b[0]] + b.drop_first());
    lemma_below_excludes(a, k, k);
    lemma_above_excludes(b, k, k);
    assert forall|x: T| a.contains(x) implies !key_eq(x, key) by {
        let j = choose|j: int| 0 <= j < a.len() && a[j] == x;
        lemma_key_eq_order(x, k, key);
        lemma_key_pair(x, key);
    }
    assert forall|x: T| b.contains(x) implies !key_eq(x, key) by {
        let j = choose|j: int| 0 <= j < b.len() && b[j] == x;
        lemma_key_eq_order(x, k, key);
        lemma_key_pair(x, key);
    }
    assert forall|x: T| #[trigger] t.contains(x) <==> s.contains(x) && !key_eq(x, key) by {
        if x == b[0] {
            assert(b.contains(x));
        }
    }
}

/// `r` is the number of keys of the ascending sequence `s` that sort
/// strictly before `key`: they are exactly its first `r` keys.
pub open spec fn is_rank<T: Ord>(s: Seq<T>, key: T, r: int) -> bool {
    &&& 0 <= r <= s.len()
    &&& forall|i: int| 0 <= i < r ==> key_lt(#[trigger] s[i], key)
    &&& forall|i: int| r <= i < s.len() ==> !key_lt(#[trigger] s[i], key)
}

/// In an ascending sequence, a key above the element at `i` is above every
/// earlier element.
pub proof fn lemma_above_from_index<T: Ord>(s: Seq<T>, i: int, j: int, x: T)
    requires
        obeys_key_order::<T>(),
        ascending(s),
        0 <= j <= i < s.len(),
        key_lt(s[i], x),
    ensures
        key_lt(s[j], x),
{
    if j < i {
        lemma_key_trans(s[j], s[i], x);
    }
}

/// In an ascending sequence, a key not above the element at `i` is not
/// above any later element.
pub proof fn lemma_not_above_from_index<T: Ord>(s: Seq<T>, i: int, j: int, x: T)
    requires
        obeys_key_order::<T>(),
        ascending(s),
        0 <= i <= j < s.len(),
        !key_lt(s[i], x),
    ensures
        !key_lt(s[j], x),
{
    if i < j && key_lt(s[j], x) {
        lemma_key_trans(s[i], s[j], x);
    }
}

/// Dropping the first key of an ascending sequence leaves it ascending and
/// removes exactly that key.
pub proof fn lemma_ascending_drop_first<T: Ord>(a: Seq<T>)
    requires
        obeys_key_order::<T>(),
        ascending(a),
        a.len() > 0,
    ensures
        ascending(a.drop_first()),
        forall|x: T| #[trigger] a.drop_first().contains(x) <==> a.contains(x) && x != a[0],
{
    let a1 = a.drop_first();
    assert forall|i: int, j: int| 0 <= i < j < a1.len() implies key_lt(
        #[trigger] a1[i],
        #[trigger] a1[j],
    ) by {
        assert(a1[i] == a[i + 1] && a1[j] == a[j + 1]);
    }
    assert forall|x: T| #[trigger] a1.contains(x) <==> a.contains(x) && x != a[0] by {
        if a1.contains(x) {
            let k = choose|k: int| 0 <= k < a1.len() && a1[k] == x;
            assert(a[k + 1] == x);
            assert(key_lt(a[0], a[k + 1]));
            lemma_key_pair(x, x);
        }
        if a.contains(x) && x != a[0] {
            let k = choose|k: int| 0 <= k < a.len() && a[k] == x;
            assert(a1[k - 1] == x);
        }
    }
}

/// An ascending sequence holds no key twice.
pub proof fn lemma_ascending_no_duplicates<T: Ord>(s: Seq<T>)
    requires
        obeys_key_order::<T>(),
        ascending(s),
    ensures
        s.no_duplicates(),
{
    assert forall|i: int, j: int| 0 <= i < s.len() && 0 <= j < s.len() && i != j implies s[i]
        != s[j] by {
        lemma_key_pair(s[i], s[j]);
        if i < j {
            assert(key_lt(s[i], s[j]));
        } else {
            assert(key_lt(s[j], s[i]));
        }
    }
}

/// Two ascending sequences that hold the same keys are equal: the keys of a
/// tree determine its sequence of keys in order.
pub proof fn lemma_ascending_unique<T: Ord>(a: Seq<T>, b: Seq<T>)
    requires
        obeys_key_order::<T>(),
        ascending(a),
        ascending(b),
        forall|x: T| #![trigger a.contains(x)] #![trigger b.contains(x)] a.contains(x) <==> b.contains(x),
    ensures
        a == b,
    decreases a.len(),
{
    if a.len() == 0 {
        if b.len() > 0 {
            assert(b.contains(b[0]));
        }
        assert(a =~= b);
    } else {
        assert(a.contains(a[0]));
        assert(b.contains(a[0]));
        assert(b.contains(b[0]));
        assert(a.contains(b[0]));
        let j = choose|j: int| 0 <= j < b.len() && b[j] == a[0];
        let i = choose|i: int| 0 <= i < a.len() && a[i] == b[0];
        lemma_key_pair(a[0], b[0]);
        if j > 0 {
            assert(key_lt(b[0], b[j]));
            if i > 0 {
                assert(key_lt(a[0], a[i]));
            }
        }
        assert(a[0] == b[0]);
        lemma_ascending_drop_first(a);
        lemma_ascending_drop_first(b);
        assert forall|x: T|
            #![trigger a.drop_first().contains(x)]
            #![trigger b.drop_first().contains(x)]
            a.drop_first().contains(x) <==> b.drop_first().contains(x) by {
            assert(a.contains(x) <==> b.contains(x));
        }
        lemma_ascending_unique(a.drop_first(), b.drop_first());
        assert(a =~= seq![a[0]] + a.drop_first());
        assert(b =~= seq![b[0]] + b.drop_first());
    }
}

/// A key has only one rank.
pub proof fn lemma_rank_unique<T: Ord>(s: Seq<T>, key: T, r1: int, r2: int)
    requires
        is_rank(s, key, r1),
        is_rank(s, key, r2),
    ensures
        r1 == r2,
{
    if r1 < r2 {
        assert(key_lt(s[r1], key));
    } else if r2 < r1 {
        assert(key_lt(s[r2], key));
    }
}

/// In an ascending sequence the key at position `i` has rank `i`: ranking
/// the key selected at `i` gives back `i`.
pub proof fn lemma_rank_of_selected<T: Ord>(s: Seq<T>, i: int)
    requires
        obeys_key_order::<T>(),
        ascending(s),
        0 <= i < s.len(),
    ensures
        is_rank(s, s[i], i),
{
    assert forall|j: int| i <= j < s.len() implies !key_lt(#[trigger] s[j], s[i]) by {
        lemma_key_pair(s[j], s[i]);
    }
}

/// A key held by an ascending sequence sits at the position of its rank:
/// selecting at the rank of a key that the sequence holds gives back a key
/// equal to it (the very key, when it is stored as it is).
pub proof fn lemma_selected_at_rank<T: Ord>(s: Seq<T>, key: T, r: int)
    requires
        obeys_key_order::<T>(),
        ascending(s),
        holds_key(s, key),
        is_rank(s, key, r),
    ensures
        r < s.len(),
        key_eq(s[r], key),
        s.contains(key) ==> s[r] == key,
{
    let i = choose|i: int| 0 <= i < s.len() && key_eq(#[trigger] s[i], key);
    assert forall|j: int| 0 <= j < i implies key_lt(#[trigger] s[j], key) by {
        lemma_key_eq_order(s[j], s[i], key);
    }
    assert forall|j: int| i <= j < s.len() implies !key_lt(#[trigger] s[j], key) by {
        lemma_key_pair(s[i], key);
        if j > i && key_lt(s[j], key) {
            lemma_key_trans(s[i], s[j], key);
        }
    }
    lemma_rank_unique(s, key, r, i);
    if s.contains(key) {
        let m = choose|m: int| 0 <= m < s.len() && s[m] == key;
        lemma_rank_of_selected(s, m);
        lemma_rank_unique(s, key, r, m);
    }
}

/// Rank is monotonic, and the keys between the ranks of `a` and `b` are
/// exactly those at or above `a` and below `b`.
pub proof fn lemma_rank_window<T: Ord>(s: Seq<T>, a: T, b: T, ra: int, rb: int)
    requires
        obeys_key_order::<T>(),
        ascending(s),
        !key_lt(b, a),
        is_rank(s, a, ra),
        is_rank(s, b, rb),
    ensures
        ra <= rb,
        forall|i: int|
            0 <= i < s.len() ==> (ra <= i < rb <==> !key_lt(#[trigger] s[i], a) && key_lt(s[i], b)),
{
    lemma_key_pair(a, b);
    if rb < ra {
        let x = s[rb];
        assert(key_lt(x, a));
        if key_lt(a, b) {
            lemma_key_trans(x, a, b);
        } else {
            lemma_key_eq_order(x, a, b);
        }
    }
}

/// The first key of a non-empty ascending sequence is its least key and the
/// last its greatest.
pub proof fn lemma_ascending_extremes<T: Ord>(s: Seq<T>)
    requires
        obeys_key_order::<T>(),
        ascending(s),
        s.len() > 0,
    ensures
        forall|i: int| 0 <= i < s.len() ==> !key_lt(#[trigger] s[i], s[0]),
        forall|i: int| 0 <= i < s.len() ==> !key_lt(s.last(), #[trigger] s[i]),
{
    assert forall|i: int| 0 <= i < s.len() implies !key_lt(#[trigger] s[i], s[0]) by {
        lemma_key_pair(s[i], s[0]);
    }
    assert forall|i: int| 0 <= i < s.len() implies !key_lt(s.last(), #[trigger] s[i]) by {
        lemma_key_pair(s[i], s.last());
    }
}


/// In an ascending sequence, when `key` is not below the element at `i`,
/// every earlier element is below `key`.
pub proof fn lemma_earlier_below<T: Ord>(s: Seq<T>, j: int, i: int, key: T)
    requires
        obeys_key_order::<T>(),
        ascending(s),
        0 <= j < i < s.len(),
        !key_lt(key, s[i]),
    ensures
        key_lt(s[j], key),
{
    lemma_key_pair(key, s[i]);
    if key_lt(s[i], key) {
        lemma_key_trans(s[j], s[i], key);
    } else {
        lemma_key_pair(s[i], key);
        lemma_key_eq_order(s[j], s[i], key);
    }
}

} // verus!
