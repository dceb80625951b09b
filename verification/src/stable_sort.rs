//! What it means for one sequence to be the stable sort of another, and what
//! follows from it.
//!
//! An ordering is given as a relation `le`, read "may stand at or before".
//! Two elements tie when `le` holds between them both ways. A ranking is an
//! ordering of all values that allows ties.
use vstd::prelude::*;
use vstd::relations::{sorted_by, strongly_connected, transitive};
use vstd::set_lib::{lemma_int_range, lemma_subset_equality, set_int_range};

verus! {

/// `le` is a ranking: any two values are related one way or the other (or
/// both, a tie), and the relation is transitive.
pub open spec fn is_total_preorder<T>(le: spec_fn(T, T) -> bool) -> bool {
    strongly_connected(le) && transitive(le)
}

/// `sorted` holds the elements of `source` in another arrangement: `origin[i]`
/// is the place in `source` from which the element at place `i` of `sorted`
/// was taken, and no place of `source` is taken twice.
pub open spec fn rearranged_by<T>(source: Seq<T>, sorted: Seq<T>, origin: Seq<int>) -> bool {
    &&& sorted.len() == source.len()
    &&& origin.len() == source.len()
    &&& origin.no_duplicates()
    &&& forall|i: int| 0 <= i < origin.len() ==> 0 <= #[trigger] origin[i] < source.len()
    &&& forall|i: int| 0 <= i < sorted.len() ==> #[trigger] sorted[i] == source[origin[i]]
}

/// `sorted` is `source` rearranged by `origin` so that it ascends under `le`,
/// with tied elements left in the order they had in `source`.
pub open spec fn stably_sorted_by<T>(
    source: Seq<T>,
    sorted: Seq<T>,
    le: spec_fn(T, T) -> bool,
    origin: Seq<int>,
) -> bool {
    &&& rearranged_by(source, sorted, origin)
    &&& sorted_by(sorted, le)
    &&& forall|i: int, j: int|
        #![trigger origin[i], origin[j]]
        0 <= i < j < sorted.len() && le(sorted[j], sorted[i]) ==> origin[i] < origin[j]
}

/// `sorted` is the stable sort of `source` under `le`.
pub open spec fn is_stable_sort<T>(
    source: Seq<T>,
    sorted: Seq<T>,
    le: spec_fn(T, T) -> bool,
) -> bool {
    exists|origin: Seq<int>| #[trigger] stably_sorted_by(source, sorted, le, origin)
}

/// A rearrangement takes every place of the source: each place is the origin
/// of some place of the result.
pub proof fn lemma_every_place_is_taken<T>(
    source: Seq<T>,
    sorted: Seq<T>,
    origin: Seq<int>,
    place: int,
) -> (at: int)
    requires
        rearranged_by(source, sorted, origin),
        0 <= place < source.len(),
    ensures
        0 <= at < sorted.len(),
        origin[at] == place,
{
    let n = source.len() as int;
    let taken = origin.to_set();
    let places = set_int_range(0, n);
    lemma_int_range(0, n);
    origin.unique_seq_to_set();
    assert(taken.subset_of(places)) by {
        assert forall|k: int| taken.contains(k) implies places.contains(k) by {
            let i = choose|i: int| 0 <= i < origin.len() && origin[i] == k;
            assert(0 <= origin[i] < n);
        }
    }
    vstd::set_lib::lemma_len_subset(taken, places);
    lemma_subset_equality(taken, places);
    assert(places.contains(place));
    assert(origin.contains(place));
    choose|i: int| 0 <= i < origin.len() && origin[i] == place
}

/// A rearrangement neither adds, drops nor repeats an element: both sequences
/// hold the same elements, each as often as the other.
pub proof fn lemma_rearranged_keeps_elements<T>(source: Seq<T>, sorted: Seq<T>, origin: Seq<int>)
    requires
        rearranged_by(source, sorted, origin),
    ensures
        sorted.to_multiset() == source.to_multiset(),
    decreases source.len(),
{
    broadcast use vstd::multiset::group_multiset_axioms;

    if source.len() == 0 {
        assert(sorted =~= source);
    } else {
        let last = source.len() - 1;
        let taken = origin[last];
        let fewer = source.remove(taken);
        let shorter = sorted.drop_last();
        let shifted = Seq::new(
            last as nat,
            |i: int| if origin[i] < taken { origin[i] } else { origin[i] - 1 },
        );
        assert forall|i: int, j: int|
            0 <= i < shifted.len() && 0 <= j < shifted.len() && i != j implies shifted[i]
            != shifted[j] by {
            assert(origin[i] != origin[j]);
            assert(origin[i] != taken && origin[j] != taken);
        }
        assert forall|i: int| 0 <= i < shifted.len() implies 0 <= #[trigger] shifted[i]
            < fewer.len() by {
            assert(origin[i] != taken);
        }
        assert forall|i: int| 0 <= i < shorter.len() implies #[trigger] shorter[i]
            == fewer[shifted[i]] by {
            assert(origin[i] != taken);
            assert(sorted[i] == source[origin[i]]);
        }
        lemma_rearranged_keeps_elements(fewer, shorter, shifted);
        vstd::seq_lib::to_multiset_remove(source, taken);
        vstd::seq_lib::to_multiset_build(shorter, sorted[last]);
        vstd::seq_lib::to_multiset_contains(source, source[taken]);
        assert(source.contains(source[taken]));
        assert(sorted =~= shorter.push(sorted[last]));
        assert(sorted[last] == source[taken]);
        assert(sorted.to_multiset() =~= source.to_multiset());
    }
}

/// The stable sort of a sequence holds the same elements as the sequence, each
/// as often as there.
pub proof fn lemma_stable_sort_keeps_elements<T>(
    source: Seq<T>,
    sorted: Seq<T>,
    le: spec_fn(T, T) -> bool,
)
    requires
        is_stable_sort(source, sorted, le),
    ensures
        sorted.len() == source.len(),
        sorted.to_multiset() == source.to_multiset(),
{
    let origin = choose|origin: Seq<int>| stably_sorted_by(source, sorted, le, origin);
    lemma_rearranged_keeps_elements(source, sorted, origin);
}

/// Two stable sorts of one sequence under one relation took their first
/// `upto` elements from the same places.
proof fn lemma_origins_agree<T>(
    source: Seq<T>,
    first: Seq<T>,
    second: Seq<T>,
    le: spec_fn(T, T) -> bool,
    p: Seq<int>,
    q: Seq<int>,
    upto: int,
)
    requires
        stably_sorted_by(source, first, le, p),
        stably_sorted_by(source, second, le, q),
        0 <= upto <= source.len(),
    ensures
        forall|i: int| 0 <= i < upto ==> p[i] == q[i],
    decreases upto,
{
    if upto > 0 {
        lemma_origins_agree(source, first, second, le, p, q, upto - 1);
        let m = upto - 1;
        if p[m] != q[m] {
            // Each sort placed the other's choice for place `m` somewhere later.
            let z = lemma_every_place_is_taken(source, second, q, p[m]);
            let w = lemma_every_place_is_taken(source, first, p, q[m]);
            assert(z > m) by {
                if z < m {
                    assert(p[z] == q[z]);
                }
            }
            assert(w > m) by {
                if w < m {
                    assert(q[w] == p[w]);
                }
            }
            assert(second[m] == source[q[m]] && second[z] == source[p[m]]);
            assert(first[m] == source[p[m]] && first[w] == source[q[m]]);
            assert(le(second[m], second[z]));
            assert(le(first[m], first[w]));
            assert(q[m] < q[z]);
            assert(p[m] < p[w]);
        }
    }
}

/// A sequence has at most one stable sort under a given relation: sorting the
/// same elements in the same order again gives the same result.
pub proof fn lemma_stable_sort_is_unique<T>(
    source: Seq<T>,
    first: Seq<T>,
    second: Seq<T>,
    le: spec_fn(T, T) -> bool,
)
    requires
        is_stable_sort(source, first, le),
        is_stable_sort(source, second, le),
    ensures
        first == second,
{
    let p = choose|origin: Seq<int>| stably_sorted_by(source, first, le, origin);
    let q = choose|origin: Seq<int>| stably_sorted_by(source, second, le, origin);
    lemma_origins_agree(source, first, second, le, p, q, source.len() as int);
    assert(first =~= second) by {
        assert forall|i: int| 0 <= i < first.len() implies first[i] == second[i] by {
            assert(p[i] == q[i]);
        }
    }
}

/// Stability: of two elements of the source that tie, the one that stands
/// earlier in the source stands earlier in its stable sort too.
pub proof fn lemma_ties_keep_their_order<T>(
    source: Seq<T>,
    sorted: Seq<T>,
    le: spec_fn(T, T) -> bool,
    earlier: int,
    later: int,
) -> (places: (int, int))
    requires
        is_stable_sort(source, sorted, le),
        0 <= earlier < later < source.len(),
        le(source[earlier], source[later]),
        le(source[later], source[earlier]),
    ensures
        0 <= places.0 < places.1 < sorted.len(),
        sorted[places.0] == source[earlier],
        sorted[places.1] == source[later],
        forall|origin: Seq<int>| #[trigger]
            stably_sorted_by(source, sorted, le, origin) ==> origin[places.0] == earlier
                && origin[places.1] == later,
{
    let origin = choose|origin: Seq<int>| stably_sorted_by(source, sorted, le, origin);
    let x = lemma_every_place_is_taken(source, sorted, origin, earlier);
    let y = lemma_every_place_is_taken(source, sorted, origin, later);
    assert(sorted[x] == source[earlier] && sorted[y] == source[later]);
    if y < x {
        assert(origin[y] < origin[x]);
    }
    assert forall|other: Seq<int>| #[trigger]
        stably_sorted_by(source, sorted, le, other) implies other[x] == earlier && other[y]
        == later by {
        lemma_origins_agree(source, sorted, sorted, le, origin, other, source.len() as int);
    }
    (x, y)
}

/// The stable sort of `source` under `le`: the sequence of which
/// `is_stable_sort` holds. Under a ranking there is one
/// ([`lemma_stable_sort_exists`]), and under any relation at most one
/// ([`lemma_stable_sort_is_unique`]).
pub open spec fn stable_sort<T>(source: Seq<T>, le: spec_fn(T, T) -> bool) -> Seq<T> {
    choose|sorted: Seq<T>| is_stable_sort(source, sorted, le)
}

/// In a sequence that ascends under a ranking, the elements at or before `x`
/// come first: up to some place every element is, from that place on none is.
proof fn lemma_ascending_splits_at<T>(sorted: Seq<T>, le: spec_fn(T, T) -> bool, x: T) -> (at: int)
    requires
        sorted_by(sorted, le),
        transitive(le),
    ensures
        0 <= at <= sorted.len(),
        forall|i: int| 0 <= i < at ==> le(#[trigger] sorted[i], x),
        forall|i: int| at <= i < sorted.len() ==> !le(#[trigger] sorted[i], x),
    decreases sorted.len(),
{
    if sorted.len() == 0 {
        0
    } else if le(sorted.last(), x) {
        assert forall|i: int| 0 <= i < sorted.len() implies le(#[trigger] sorted[i], x) by {
            if i < sorted.len() - 1 {
                assert(le(sorted[i], sorted.last()));
            }
        }
        sorted.len() as int
    } else {
        let shorter = sorted.drop_last();
        let at = lemma_ascending_splits_at(shorter, le, x);
        assert forall|i: int| 0 <= i < at implies le(#[trigger] sorted[i], x) by {
            assert(sorted[i] == shorter[i]);
        }
        assert forall|i: int| at <= i < sorted.len() implies !le(#[trigger] sorted[i], x) by {
            if i < shorter.len() {
                assert(sorted[i] == shorter[i]);
            }
        }
        at
    }
}

/// Every sequence can be sorted stably under a ranking: the elements before
/// the last are sorted, and the last is put behind those at or before it.
proof fn lemma_can_be_sorted<T>(source: Seq<T>, le: spec_fn(T, T) -> bool) -> (found: (
    Seq<T>,
    Seq<int>,
))
    requires
        is_total_preorder(le),
    ensures
        stably_sorted_by(source, found.0, le, found.1),
    decreases source.len(),
{
    if source.len() == 0 {
        (Seq::empty(), Seq::empty())
    } else {
        let last = source.len() - 1;
        let x = source[last];
        let (s, p) = lemma_can_be_sorted(source.drop_last(), le);
        let at = lemma_ascending_splits_at(s, le, x);
        let sorted = Seq::new(
            source.len(),
            |i: int|
                if i < at {
                    s[i]
                } else if i == at {
                    x
                } else {
                    s[i - 1]
                },
        );
        let origin = Seq::new(
            source.len(),
            |i: int|
                if i < at {
                    p[i]
                } else if i == at {
                    last
                } else {
                    p[i - 1]
                },
        );
        // Where the element at place `i` stood before `x` was put in.
        let was = |i: int| if i < at { i } else { i - 1 };
        assert forall|i: int| 0 <= i < origin.len() && i != at implies 0 <= #[trigger] origin[i]
            < last && origin[i] == p[was(i)] && sorted[i] == s[was(i)] by {
            assert(0 <= p[was(i)] < last);
        }
        assert forall|i: int, j: int|
            0 <= i < origin.len() && 0 <= j < origin.len() && i != j implies origin[i]
            != origin[j] by {
            if i != at && j != at {
                assert(p[was(i)] != p[was(j)]);
            }
        }
        assert forall|i: int| 0 <= i < sorted.len() implies #[trigger] sorted[i]
            == source[origin[i]] by {
            if i != at {
                assert(s[was(i)] == source.drop_last()[p[was(i)]]);
            }
        }
        assert forall|i: int, j: int| 0 <= i < j < sorted.len() implies #[trigger] le(
            sorted[i],
            sorted[j],
        ) by {
            if i == at {
                assert(!le(s[was(j)], x));
            } else if j == at {
                assert(le(s[was(i)], x));
            } else {
                assert(le(s[was(i)], s[was(j)]));
            }
        }
        assert forall|i: int, j: int|
            #![trigger origin[i], origin[j]]
            0 <= i < j < sorted.len() && le(sorted[j], sorted[i]) implies origin[i]
            < origin[j] by {
            if i == at {
                assert(!le(s[was(j)], x));
            } else if j == at {
                assert(origin[i] < last);
            } else {
                assert(p[was(i)] < p[was(j)]);
            }
        }
        (sorted, origin)
    }
}

/// Under a ranking every sequence has a stable sort, and `stable_sort` is it.
pub proof fn lemma_stable_sort_exists<T>(source: Seq<T>, le: spec_fn(T, T) -> bool)
    requires
        is_total_preorder(le),
    ensures
        is_stable_sort(source, stable_sort(source, le), le),
{
    let (sorted, origin) = lemma_can_be_sorted(source, le);
    assert(is_stable_sort(source, sorted, le));
}

/// What is a stable sort of `source` under `le` is `stable_sort(source, le)`.
pub proof fn lemma_stable_sort_is_the_stable_sort<T>(
    source: Seq<T>,
    sorted: Seq<T>,
    le: spec_fn(T, T) -> bool,
)
    requires
        is_stable_sort(source, sorted, le),
    ensures
        sorted == stable_sort(source, le),
{
    lemma_stable_sort_is_unique(source, sorted, stable_sort(source, le), le);
}

} // verus!
