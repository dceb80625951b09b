//! Orderings, and the comparators and key functions that compute them.
//!
//! An ordering is a relation `le` on the elements, read "may stand at or
//! before". A comparator and a key function are executable; what they
//! compute is tied here to such a relation.
use crate::stable_sort::is_total_preorder;
use std::cmp::Ordering;
use vstd::prelude::*;
use vstd::std_specs::cmp::{OrdSpec, PartialEqSpec, PartialOrdSpec};

verus! {

/// What a three-way comparison of `a` with `b` gives under `le`.
pub open spec fn ordering_of<T>(le: spec_fn(T, T) -> bool, a: T, b: T) -> Ordering {
    if !le(a, b) {
        Ordering::Greater
    } else if le(b, a) {
        Ordering::Equal
    } else {
        Ordering::Less
    }
}

/// Whatever `compare` returns for two values is what `le` gives for them.
pub open spec fn compares_by<T, F: Fn(&T, &T) -> Ordering>(
    compare: F,
    le: spec_fn(T, T) -> bool,
) -> bool {
    forall|a: T, b: T, r: Ordering| #[trigger]
        compare.ensures((&a, &b), r) ==> r == ordering_of(le, a, b)
}

/// `compare` is a valid comparator: it may be called on any two values, and
/// there is a ranking of all values that its results follow.
pub open spec fn is_comparator<T, F: Fn(&T, &T) -> Ordering>(compare: F) -> bool {
    &&& forall|a: T, b: T| #[trigger] compare.requires((&a, &b))
    &&& exists|le: spec_fn(T, T) -> bool| is_total_preorder(le) && #[trigger] compares_by(compare, le)
}

/// The natural order of `T` as a relation: `a` is not greater than `b`.
pub open spec fn natural_le<T: Ord>() -> spec_fn(T, T) -> bool {
    |a: T, b: T| a.cmp_spec(&b) != Ordering::Greater
}

/// `T` has a total order: `cmp` computes `cmp_spec`, which ranks all values
/// and answers each comparison in keeping with its mirror image.
pub open spec fn has_total_order<T: Ord>() -> bool {
    &&& T::obeys_cmp_spec()
    &&& is_total_preorder(natural_le::<T>())
    &&& forall|a: T, b: T| #[trigger] a.cmp_spec(&b) == ordering_of(natural_le::<T>(), a, b)
}

/// Whatever `key_fn` returns for a value is `key` of that value.
pub open spec fn extracts<T, K, F: Fn(&T) -> K>(key_fn: F, key: spec_fn(T) -> K) -> bool {
    forall|a: T, k: K| #[trigger] key_fn.ensures((&a,), k) ==> k == key(a)
}

/// `key_fn` is a valid key function: it may be called on any value, and gives
/// each value one key.
pub open spec fn is_key_fn<T, K, F: Fn(&T) -> K>(key_fn: F) -> bool {
    &&& forall|a: T| #[trigger] key_fn.requires((&a,))
    &&& exists|key: spec_fn(T) -> K| #[trigger] extracts(key_fn, key)
}

/// The order of the elements by their keys: the key of `a` is not greater
/// than the key of `b`.
pub open spec fn key_le<T, K: Ord>(key: spec_fn(T) -> K) -> spec_fn(T, T) -> bool {
    |a: T, b: T| key(a).cmp_spec(&key(b)) != Ordering::Greater
}

/// Keys with a total order rank the elements they are taken from.
pub proof fn lemma_key_order_is_total<T, K: Ord>(key: spec_fn(T) -> K)
    requires
        has_total_order::<K>(),
    ensures
        is_total_preorder(key_le(key)),
        forall|a: T, b: T| #[trigger]
            ordering_of(key_le(key), a, b) == key(a).cmp_spec(&key(b)),
{
    let le = key_le(key);
    let of_keys = natural_le::<K>();
    assert forall|a: T, b: T| #[trigger] le(a, b) || #[trigger] le(b, a) by {
        assert(of_keys(key(a), key(b)) || of_keys(key(b), key(a)));
    }
    assert forall|a: T, b: T, c: T| #[trigger] le(a, b) && #[trigger] le(b, c) implies le(a, c) by {
        assert(of_keys(key(a), key(b)) && of_keys(key(b), key(c)));
    }
    assert forall|a: T, b: T| #[trigger]
        ordering_of(le, a, b) == key(a).cmp_spec(&key(b)) by {
        assert(key(a).cmp_spec(&key(b)) == ordering_of(of_keys, key(a), key(b)));
    }
}

/// A type whose comparisons obey the laws that vstd states for `Ord` has a
/// total order.
pub proof fn lemma_lawful_order_is_total<T: Ord>()
    requires
        vstd::laws_cmp::obeys_cmp::<T>(),
    ensures
        has_total_order::<T>(),
{
    reveal(vstd::laws_cmp::obeys_cmp_ord);
    reveal(vstd::laws_cmp::obeys_cmp_partial_ord);
    reveal(vstd::laws_cmp::obeys_partial_cmp_spec_properties);
    reveal(vstd::laws_eq::obeys_eq_spec_properties);
    let le = natural_le::<T>();
    assert forall|a: T, b: T| #[trigger] le(a, b) || #[trigger] le(b, a) by {
        if a.cmp_spec(&b) == Ordering::Greater {
            assert(a.partial_cmp_spec(&b) == Some(Ordering::Greater));
            assert(b.partial_cmp_spec(&a) == Some(Ordering::Less));
        }
    }
    assert forall|a: T, b: T| #[trigger] a.cmp_spec(&b) == ordering_of(le, a, b) by {
        assert(a.partial_cmp_spec(&b) == Some(a.cmp_spec(&b)));
        assert(b.partial_cmp_spec(&a) == Some(b.cmp_spec(&a)));
        if a.cmp_spec(&b) == Ordering::Equal {
            assert(a.eq_spec(&b));
            assert(b.eq_spec(&a));
        }
    }
    assert forall|a: T, b: T, c: T| #[trigger] le(a, b) && #[trigger] le(b, c) implies le(a, c) by {
        assert(a.partial_cmp_spec(&b) == Some(a.cmp_spec(&b)));
        assert(b.partial_cmp_spec(&c) == Some(b.cmp_spec(&c)));
        assert(a.partial_cmp_spec(&c) == Some(a.cmp_spec(&c)));
        assert(c.partial_cmp_spec(&a) == Some(c.cmp_spec(&a)));
        assert(c.partial_cmp_spec(&b) == Some(c.cmp_spec(&b)));
        assert(b.partial_cmp_spec(&a) == Some(b.cmp_spec(&a)));
        if a.cmp_spec(&c) == Ordering::Greater {
            // Then `c` is below `a`, which is at or below `b`, which is at or below `c`.
            assert(c.partial_cmp_spec(&a) == Some(Ordering::Less));
            if a.cmp_spec(&b) == Ordering::Less {
                assert(c.partial_cmp_spec(&b) == Some(Ordering::Less));
                assert(b.partial_cmp_spec(&c) == Some(Ordering::Greater));
            } else {
                assert(a.eq_spec(&b));
                assert(b.eq_spec(&a));
                if b.cmp_spec(&c) == Ordering::Less {
                    assert(b.partial_cmp_spec(&a) == Some(Ordering::Less));
                } else {
                    assert(b.eq_spec(&c));
                    assert(a.eq_spec(&c));
                }
            }
        }
    }
}

} // verus!
