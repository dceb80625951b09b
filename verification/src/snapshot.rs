//! The recomputation of a sorted view: sorting, in place, the snapshot that
//! was read from the source, by one of three strategies: the natural order of
//! the elements, a comparator, or a key taken from each element.
//!
//! Reading the source and publishing the result are the reactive runtime's
//! part and happen around these functions; what they are handed is the clone
//! that the read gave, so the source itself is never written to.
//!
//! The sort itself is the standard library's stable sort. The three
//! strategies share it: the natural order and the order by key are handed to
//! it as comparators.
use crate::order::{
    compares_by, extracts, has_total_order, is_comparator, is_key_fn, key_le,
    lemma_key_order_is_total, natural_le,
};
use crate::stable_sort::{
    is_stable_sort, is_total_preorder, lemma_stable_sort_is_the_stable_sort,
    lemma_stable_sort_keeps_elements, stable_sort,
};
use std::cmp::Ordering;
use vstd::prelude::*;
use vstd::std_specs::cmp::OrdSpec;

verus! {

/// `sorted` is `source` sorted by `compare`: its stable sort under every
/// ranking that the results of `compare` follow.
pub open spec fn sorted_by_comparator<T, F: Fn(&T, &T) -> Ordering>(
    source: Seq<T>,
    sorted: Seq<T>,
    compare: F,
) -> bool {
    forall|le: spec_fn(T, T) -> bool|
        is_total_preorder(le) && #[trigger] compares_by(compare, le) ==> is_stable_sort(
            source,
            sorted,
            le,
        )
}

/// `sorted` is `source` sorted by the keys that `key_fn` gives: its stable
/// sort under the order of those keys.
pub open spec fn sorted_by_key_fn<T, K: Ord, F: Fn(&T) -> K>(
    source: Seq<T>,
    sorted: Seq<T>,
    key_fn: F,
) -> bool {
    forall|key: spec_fn(T) -> K| #[trigger]
        extracts(key_fn, key) ==> is_stable_sort(source, sorted, key_le(key))
}

/// The standard library's `<[T]>::sort_by`, called with `compare`.
///
/// Trusted, from the documentation of `sort_by`: it sorts the slice in
/// ascending order by the comparison function and keeps the initial order of
/// elements that compare equal. It may panic where the function does not
/// implement a total order, so a valid comparator is required. Stated here:
/// for each ranking that the comparator's results follow, the slice afterwards
/// is the stable sort, under that ranking, of the slice before.
#[verifier::external_body]
fn slice_sort_by<T, F>(items: &mut [T], compare: &F)
    where
        F: Fn(&T, &T) -> Ordering,
    requires
        is_comparator(*compare),
    ensures
        sorted_by_comparator(old(items)@, final(items)@, *compare),
{
    items.sort_by(compare)
}

/// Sorts the snapshot `iterable` in place by `cmp_fn`, stably.
///
/// Afterwards `iterable` is the stable sort of what it was, under the ranking
/// that `cmp_fn` computes: it ascends, elements that compare equal keep the
/// order they had, and every element is there as often as before.
pub fn use_sorted_by<T, F>(iterable: &mut [T], cmp_fn: &F)
    where
        F: Fn(&T, &T) -> Ordering,
    requires
        is_comparator(*cmp_fn),
    ensures
        sorted_by_comparator(old(iterable)@, final(iterable)@, *cmp_fn),
        forall|le: spec_fn(T, T) -> bool|
            is_total_preorder(le) && #[trigger] compares_by(*cmp_fn, le) ==> final(iterable)@
                == stable_sort(old(iterable)@, le),
        final(iterable)@.len() == old(iterable)@.len(),
        final(iterable)@.to_multiset() == old(iterable)@.to_multiset(),
{
    slice_sort_by(iterable, cmp_fn);
    proof {
        let some = choose|le: spec_fn(T, T) -> bool|
            is_total_preorder(le) && #[trigger] compares_by(*cmp_fn, le);
        lemma_stable_sort_keeps_elements(old(iterable)@, iterable@, some);
        assert forall|le: spec_fn(T, T) -> bool|
            is_total_preorder(le) && #[trigger] compares_by(*cmp_fn, le) implies iterable@
            == stable_sort(old(iterable)@, le) by {
            lemma_stable_sort_is_the_stable_sort(old(iterable)@, iterable@, le);
        }
    }
}

/// Sorts the snapshot `iterable` in place in the natural order of the
/// elements, ascending and stably.
///
/// Afterwards `iterable` is the stable sort of what it was, under the natural
/// order of `T`.
pub fn use_sorted<T: Ord>(iterable: &mut [T])
    requires
        has_total_order::<T>(),
    ensures
        is_stable_sort(old(iterable)@, final(iterable)@, natural_le::<T>()),
        final(iterable)@ == stable_sort(old(iterable)@, natural_le::<T>()),
        final(iterable)@.len() == old(iterable)@.len(),
        final(iterable)@.to_multiset() == old(iterable)@.to_multiset(),
{
    let natural = |a: &T, b: &T| -> (r: Ordering)
        ensures
            r == a.cmp_spec(b),
        {
            a.cmp(b)
        };
    assert(compares_by(natural, natural_le::<T>()));
    use_sorted_by(iterable, &natural);
}

/// Sorts the snapshot `iterable` in place by the keys that `key_fn` takes from
/// its elements, ascending and stably.
///
/// Afterwards `iterable` is the stable sort of what it was, under the order of
/// the keys: what sorting by a comparator of the keys gives.
pub fn use_sorted_by_key<T, K, F>(iterable: &mut [T], key_fn: &F)
    where
        K: Ord,
        F: Fn(&T) -> K,
    requires
        is_key_fn(*key_fn),
        has_total_order::<K>(),
    ensures
        sorted_by_key_fn(old(iterable)@, final(iterable)@, *key_fn),
        forall|key: spec_fn(T) -> K| #[trigger]
            extracts(*key_fn, key) ==> final(iterable)@ == stable_sort(old(iterable)@, key_le(key)),
        final(iterable)@.len() == old(iterable)@.len(),
        final(iterable)@.to_multiset() == old(iterable)@.to_multiset(),
{
    let by_key = |a: &T, b: &T| -> (r: Ordering)
        ensures
            forall|key: spec_fn(T) -> K| #[trigger]
                extracts(*key_fn, key) ==> r == key(*a).cmp_spec(&key(*b)),
        {
            let key_a = key_fn(a);
            let key_b = key_fn(b);
            key_a.cmp(&key_b)
        };
    proof {
        assert forall|key: spec_fn(T) -> K| #[trigger] extracts(*key_fn, key) implies
            is_total_preorder(key_le(key)) && compares_by(by_key, key_le(key)) by {
            lemma_key_order_is_total(key);
        }
    }
    use_sorted_by(iterable, &by_key);
}

} // verus!
