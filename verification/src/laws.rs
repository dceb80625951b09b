//! What holds of the three strategies taken together.
use crate::order::{
    compares_by, extracts, has_total_order, is_comparator, is_key_fn, key_le,
    lemma_key_order_is_total,
};
use crate::snapshot::{sorted_by_comparator, sorted_by_key_fn};
use crate::stable_sort::{is_total_preorder, lemma_stable_sort_is_unique};
use std::cmp::Ordering;
use vstd::prelude::*;
use vstd::std_specs::cmp::OrdSpec;

verus! {

/// Sorting by key gives what sorting by a comparator gives when the
/// comparator compares the keys of its two arguments.
pub proof fn lemma_sort_by_key_is_sort_by_comparing_keys<
    T,
    K: Ord,
    F: Fn(&T) -> K,
    G: Fn(&T, &T) -> Ordering,
>(
    source: Seq<T>,
    by_key: Seq<T>,
    by_comparator: Seq<T>,
    key_fn: F,
    key: spec_fn(T) -> K,
    compare: G,
)
    requires
        has_total_order::<K>(),
        extracts(key_fn, key),
        forall|a: T, b: T, r: Ordering| #[trigger]
            compare.ensures((&a, &b), r) ==> r == key(a).cmp_spec(&key(b)),
        sorted_by_key_fn(source, by_key, key_fn),
        sorted_by_comparator(source, by_comparator, compare),
    ensures
        by_key == by_comparator,
{
    lemma_key_order_is_total(key);
    assert(compares_by(compare, key_le(key)));
    lemma_stable_sort_is_unique(source, by_key, by_comparator, key_le(key));
}

/// Sorting the same snapshot by the same comparator twice gives the same
/// sequence twice.
pub proof fn lemma_sort_by_comparator_is_repeatable<T, F: Fn(&T, &T) -> Ordering>(
    source: Seq<T>,
    first: Seq<T>,
    second: Seq<T>,
    compare: F,
)
    requires
        is_comparator(compare),
        sorted_by_comparator(source, first, compare),
        sorted_by_comparator(source, second, compare),
    ensures
        first == second,
{
    let le = choose|le: spec_fn(T, T) -> bool|
        is_total_preorder(le) && #[trigger] compares_by(compare, le);
    lemma_stable_sort_is_unique(source, first, second, le);
}

/// Sorting the same snapshot by the same key function twice gives the same
/// sequence twice.
pub proof fn lemma_sort_by_key_is_repeatable<T, K: Ord, F: Fn(&T) -> K>(
    source: Seq<T>,
    first: Seq<T>,
    second: Seq<T>,
    key_fn: F,
)
    requires
        is_key_fn(key_fn),
        sorted_by_key_fn(source, first, key_fn),
        sorted_by_key_fn(source, second, key_fn),
    ensures
        first == second,
{
    let key = choose|key: spec_fn(T) -> K| #[trigger] extracts(key_fn, key);
    lemma_stable_sort_is_unique(source, first, second, key_le(key));
}

} // verus!
