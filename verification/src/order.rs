//! The total order on keys that the tree relies on, stated over the
//! specifications that vstd gives to `PartialEq`, `PartialOrd` and `Ord`.

use vstd::prelude::*;
use vstd::laws_cmp::obeys_cmp;
use vstd::laws_cmp::obeys_cmp_partial_ord;
use vstd::laws_cmp::obeys_cmp_ord;
use vstd::laws_cmp::obeys_partial_cmp_spec_properties;
use vstd::laws_eq::obeys_eq_spec_properties;
use core::cmp::Ordering;
use vstd::std_specs::cmp::PartialEqSpec;
use vstd::std_specs::cmp::PartialOrdSpec;
use vstd::std_specs::cmp::OrdSpec;

verus! {

/// `a` sorts strictly before `b` in the order of `T`.
pub open spec fn key_lt<T: Ord>(a: T, b: T) -> bool {
    a.partial_cmp_spec(&b) == Some(Ordering::Less)
}

/// `a` and `b` are equal keys: `a == b` holds. This is an equivalence that
/// may relate distinct values (for a type ordered by one of its fields).
pub open spec fn key_eq<T: Ord>(a: T, b: T) -> bool {
    a.eq_spec(&b)
}

/// The implementations of `PartialEq`, `PartialOrd` and `Ord` of `T` form
/// the total order that `Ord` documents, with `==` as its equivalence.
pub open spec fn obeys_key_order<T: Ord>() -> bool {
    obeys_cmp::<T>()
}

/// The comparison of `a` with `b` reports `Greater`.
pub open spec fn reports_greater<T: Ord>(a: T, b: T) -> bool {
    a.partial_cmp_spec(&b) == Some(Ordering::Greater)
}

/// The comparison of `a` with `b` reports `Less` or `Equal`.
pub open spec fn reports_at_most<T: Ord>(a: T, b: T) -> bool {
    a.partial_cmp_spec(&b) matches Some(Ordering::Less | Ordering::Equal)
}

/// The comparison operators of `T` compute the values that vstd specifies.
pub open spec fn comparisons_specified<T: Ord>() -> bool {
    &&& T::obeys_eq_spec()
    &&& T::obeys_partial_cmp_spec()
}

/// What the comparison operators of `T` compute, for one pair of keys: two
/// keys are equal exactly when neither sorts before the other.
pub proof fn lemma_key_pair<T: Ord>(a: T, b: T)
    requires
        obeys_key_order::<T>(),
    ensures
        comparisons_specified::<T>(),
        key_eq(a, b) <==> !key_lt(a, b) && !key_lt(b, a),
        reports_greater(a, b) <==> key_lt(b, a),
        reports_at_most(a, b) <==> !key_lt(b, a),
        !(key_lt(a, b) && key_lt(b, a)),
        !key_lt(a, a),
        key_eq(a, a),
{
    reveal(obeys_cmp_partial_ord);
    reveal(obeys_cmp_ord);
    reveal(obeys_partial_cmp_spec_properties);
    reveal(obeys_eq_spec_properties);
    assert(a.partial_cmp_spec(&b) == Some(a.cmp_spec(&b)));
    assert(b.partial_cmp_spec(&a) == Some(b.cmp_spec(&a)));
    assert(a.partial_cmp_spec(&a) == Some(a.cmp_spec(&a)));
}

/// The order of keys is transitive.
pub proof fn lemma_key_trans<T: Ord>(a: T, b: T, c: T)
    requires
        obeys_key_order::<T>(),
        key_lt(a, b),
        key_lt(b, c),
    ensures
        key_lt(a, c),
{
    reveal(obeys_partial_cmp_spec_properties);
}

/// Equal keys sort alike: a key below one of two equal keys is below the
/// other, and a key above one is above the other.
pub proof fn lemma_key_eq_order<T: Ord>(a: T, b: T, c: T)
    requires
        obeys_key_order::<T>(),
        key_eq(b, c),
    ensures
        key_lt(a, b) ==> key_lt(a, c),
        key_lt(b, a) ==> key_lt(c, a),
        key_eq(a, b) ==> key_eq(a, c),
{
    reveal(obeys_eq_spec_properties);
    lemma_key_pair(a, b);
    lemma_key_pair(a, c);
    lemma_key_pair(b, c);
    lemma_key_pair(c, b);
    if key_lt(c, a) && key_lt(a, b) {
        lemma_key_trans(c, a, b);
    }
    if key_lt(b, a) && key_lt(a, c) {
        lemma_key_trans(b, a, c);
    }
    if key_eq(a, c) {
        assert(c.eq_spec(&b));
        assert(a.eq_spec(&b));
    }
}

} // verus!
