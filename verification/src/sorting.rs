//! Stable sorting by a key of three integers, and what it means.

use vstd::prelude::*;
use crate::parsing::RawMinutiaCombined;
use crate::types::{Edge, Pair};

verus! {

/// A sort key: three integers, compared one after the other.
pub type SortKey = (int, int, int);

/// Whether key `a` comes before key `b` or equals it.
pub open spec fn key_le(a: SortKey, b: SortKey) -> bool {
    a.0 < b.0 || (a.0 == b.0 && (a.1 < b.1 || (a.1 == b.1 && a.2 <= b.2)))
}

/// Whether the keys of `items` never go down.
pub open spec fn is_sorted_by<T>(items: Seq<T>, key: spec_fn(T) -> SortKey) -> bool {
    forall|i: int, j: int| 0 <= i < j < items.len() ==> key_le(key(items[i]), key(items[j]))
}

/// Whether `sorted` is `source` sorted by `key` without changing the order
/// of items with equal keys, `order` telling for each place of `sorted`
/// the place in `source` that its item comes from: `order` is a one-to-one
/// map of the places onto themselves, the keys of `sorted` never go down,
/// and of two items with equal keys the one that came first in `source`
/// comes first in `sorted`.
pub open spec fn is_stable_sort<T>(
    sorted: Seq<T>,
    source: Seq<T>,
    order: Seq<int>,
    key: spec_fn(T) -> SortKey,
) -> bool {
    &&& sorted.len() == source.len()
    &&& order.len() == source.len()
    &&& forall|i: int| 0 <= i < order.len() ==> 0 <= #[trigger] order[i] < source.len()
    &&& forall|i: int, j: int|
        0 <= i < j < order.len() ==> #[trigger] order[i] != #[trigger] order[j]
    &&& forall|j: int| 0 <= j < source.len() ==> #[trigger] order.contains(j)
    &&& forall|i: int| 0 <= i < sorted.len() ==> #[trigger] sorted[i] == source[order[i]]
    &&& is_sorted_by(sorted, key)
    &&& forall|i: int, j: int|
        0 <= i < j < sorted.len() && key(sorted[i]) == key(sorted[j]) ==> #[trigger] order[i]
            < #[trigger] order[j]
}

/// What holds of every item of a list holds of every item of the sorted
/// list.
pub proof fn lemma_sorted_items<T>(
    sorted: Seq<T>,
    source: Seq<T>,
    order: Seq<int>,
    key: spec_fn(T) -> SortKey,
    holds: spec_fn(T) -> bool,
)
    requires
        is_stable_sort(sorted, source, order, key),
        forall|i: int| 0 <= i < source.len() ==> #[trigger] holds(source[i]),
    ensures
        forall|i: int| 0 <= i < sorted.len() ==> #[trigger] holds(sorted[i]),
{
    assert forall|i: int| 0 <= i < sorted.len() implies #[trigger] holds(sorted[i]) by {
        assert(sorted[i] == source[order[i]]);
        assert(holds(source[order[i]]));
    }
}

/// The key that edges are sorted by.
pub open spec fn edge_key() -> spec_fn(Edge) -> SortKey {
    |edge: Edge| edge.key()
}

/// The key that the pairs of an index are sorted by: the first endpoints on
/// both prints, then the probe's second endpoint.
pub open spec fn pair_key() -> spec_fn(Pair) -> SortKey {
    |pair: Pair| (pair.probe_k.0 as int, pair.gallery_k.0 as int, pair.probe_j.0 as int)
}

/// The key that the places of pairs are sorted by for the lookup by second
/// endpoints: the second endpoints on both prints.
pub open spec fn second_key(pairs: Seq<Pair>) -> spec_fn(u32) -> SortKey {
    |place: u32| (pairs[place as int].probe_j.0 as int, pairs[place as int].gallery_j.0 as int, 0int)
}

/// The key that sorts raw minutiae from the best quality to the worst.
pub open spec fn quality_key() -> spec_fn(RawMinutiaCombined) -> SortKey {
    |raw: RawMinutiaCombined| (-(raw.q as int), 0int, 0int)
}

/// The key that sorts raw minutiae from left to right, and from top to
/// bottom where they stand above each other.
pub open spec fn position_key() -> spec_fn(RawMinutiaCombined) -> SortKey {
    |raw: RawMinutiaCombined| (raw.x as int, raw.y as int, 0int)
}

/// Calls `sort_by_key` of slices, which sorts by the key and is stable, with
/// the quality in `std::cmp::Reverse` as the key, which turns the order of
/// the integers round: the greatest quality comes first.
#[verifier::external_body]
pub(crate) fn sort_by_quality(minutiae: &mut Vec<RawMinutiaCombined>)
    ensures
        exists|order: Seq<int>|
            is_stable_sort(final(minutiae)@, old(minutiae)@, order, quality_key()),
{
    minutiae.sort_by_key(|raw| std::cmp::Reverse(raw.q));
}

/// Calls `sort_by_key` of slices, which sorts by the key and is stable, with
/// the key made of the two coordinates.
#[verifier::external_body]
pub(crate) fn sort_by_position(minutiae: &mut Vec<RawMinutiaCombined>)
    ensures
        exists|order: Seq<int>|
            is_stable_sort(final(minutiae)@, old(minutiae)@, order, position_key()),
{
    minutiae.sort_by_key(|raw| (raw.x, raw.y));
}

/// Calls `sort_by_key` of slices, which sorts by the key and is stable, with
/// the key made of the edge's squared length and its two angles; tuples of
/// integers are compared one component after the other.
#[verifier::external_body]
pub(crate) fn sort_edges(edges: &mut Vec<Edge>)
    ensures
        exists|order: Seq<int>| is_stable_sort(final(edges)@, old(edges)@, order, edge_key()),
{
    edges.sort_by_key(|edge| (edge.distance_squared, edge.min_beta, edge.max_beta));
}

/// Calls `sort_by_key` of slices, which sorts by the key and is stable, with
/// the key made of three endpoint numbers of the pair.
#[verifier::external_body]
pub(crate) fn sort_pairs(pairs: &mut Vec<Pair>)
    ensures
        exists|order: Seq<int>| is_stable_sort(final(pairs)@, old(pairs)@, order, pair_key()),
{
    pairs.sort_by_key(|pair| (pair.probe_k.0, pair.gallery_k.0, pair.probe_j.0));
}

/// Calls `sort_by_key` of slices, which sorts by the key and is stable, on
/// places of pairs, with the key made of the two second endpoints of the
/// pair at that place. Indexing panics beyond the end of `pairs`, so every
/// place must lie within.
#[verifier::external_body]
pub(crate) fn sort_places(pairs: &Vec<Pair>, places: &mut Vec<u32>)
    requires
        forall|i: int| 0 <= i < old(places)@.len() ==> old(places)@[i] < pairs@.len(),
    ensures
        exists|order: Seq<int>|
            is_stable_sort(final(places)@, old(places)@, order, second_key(pairs@)),
{
    places.sort_by_key(|place| (pairs[*place as usize].probe_j.0, pairs[*place as usize].gallery_j.0));
}

} // verus!
