//! Pruning of minutiae lists and limiting of edge lists.

use vstd::prelude::*;
use crate::consts::{Config, MIN_NUMBER_OF_EDGES};
use crate::parsing::RawMinutiaCombined;
use crate::sorting::{
    edge_key, is_sorted_by, is_stable_sort, key_le, position_key, quality_key, sort_by_position,
    sort_by_quality,
};
use crate::types::{Edge, Minutia};
use crate::weird_sort::{lemma_weird_order, sort_order_decreasing, weird_order};

verus! {

/// The qualities of the raw minutiae, in their order.
pub open spec fn qualities(raw: Seq<RawMinutiaCombined>) -> Seq<i32> {
    Seq::new(raw.len(), |i: int| raw[i].q)
}

/// The minutiae of the raw minutiae, in their order.
pub open spec fn minutiae_of(raw: Seq<RawMinutiaCombined>) -> Seq<Minutia> {
    Seq::new(raw.len(), |i: int| raw[i].minutia())
}

/// Whether `kept` are the raw minutiae that pruning keeps: all where there
/// are no more than `max_minutiae`, and otherwise the first `max_minutiae`
/// in the order from the best quality to the worst. Minutiae of equal
/// quality come in the order of the legacy sort in strict mode, and as they
/// stand in the list otherwise.
pub open spec fn is_kept(
    config: Config,
    raw: Seq<RawMinutiaCombined>,
    max_minutiae: int,
    kept: Seq<RawMinutiaCombined>,
) -> bool {
    if raw.len() <= max_minutiae {
        kept == raw
    } else if config.strict_mode {
        kept == Seq::new(
            max_minutiae as nat,
            |i: int| raw[weird_order(qualities(raw))[i] as int],
        )
    } else {
        exists|sorted: Seq<RawMinutiaCombined>, order: Seq<int>|
            #[trigger] is_stable_sort(sorted, raw, order, quality_key()) && kept == sorted.take(
                max_minutiae,
            )
    }
}

/// Whether `kept` are picked from `raw` in such a way that no minutia is
/// kept that has a lower quality than one that is left out: `order` holds
/// every place of `raw` once, the minutiae kept are those at the first
/// places of `order`, and none of them has a lower quality than a minutia at
/// a later place of `order`.
pub open spec fn keeps_best(
    raw: Seq<RawMinutiaCombined>,
    kept: Seq<RawMinutiaCombined>,
    order: Seq<int>,
) -> bool {
    &&& order.len() == raw.len()
    &&& kept.len() <= raw.len()
    &&& forall|i: int| 0 <= i < order.len() ==> 0 <= #[trigger] order[i] < raw.len()
    &&& forall|i: int, j: int|
        0 <= i < j < order.len() ==> #[trigger] order[i] != #[trigger] order[j]
    &&& forall|i: int| 0 <= i < kept.len() ==> #[trigger] kept[i] == raw[order[i]]
    &&& forall|i: int, j: int|
        0 <= i < kept.len() <= j < order.len() ==> raw[#[trigger] order[i]].q
            >= raw[#[trigger] order[j]].q
}

/// Pruning keeps as many minutiae as it may, and none of a lower quality
/// than one that it leaves out.
pub proof fn lemma_kept_are_best(
    config: Config,
    raw: Seq<RawMinutiaCombined>,
    max_minutiae: int,
    kept: Seq<RawMinutiaCombined>,
)
    requires
        0 <= max_minutiae,
        raw.len() <= usize::MAX,
        is_kept(config, raw, max_minutiae, kept),
    ensures
        kept.len() == if raw.len() <= max_minutiae {
            raw.len() as int
        } else {
            max_minutiae
        },
        exists|order: Seq<int>| keeps_best(raw, kept, order),
{
    if raw.len() <= max_minutiae {
        let order = Seq::new(raw.len(), |i: int| i);
        assert(keeps_best(raw, kept, order));
    } else if config.strict_mode {
        let values = qualities(raw);
        lemma_weird_order(values);
        let places = weird_order(values);
        let order = Seq::new(raw.len(), |i: int| places[i] as int);
        assert forall|i: int, j: int| 0 <= i < kept.len() <= j < order.len() implies raw[
            #[trigger] order[i]
        ].q >= raw[#[trigger] order[j]].q by {
            assert(values[places[i] as int] >= values[places[j] as int]);
        }
        assert forall|i: int, j: int| 0 <= i < j < order.len() implies #[trigger] order[i]
            != #[trigger] order[j] by {
            assert(places[i] != places[j]);
        }
        assert(keeps_best(raw, kept, order));
    } else {
        let (sorted, order) = choose|sorted: Seq<RawMinutiaCombined>, order: Seq<int>|
            #[trigger] is_stable_sort(sorted, raw, order, quality_key()) && kept == sorted.take(
                max_minutiae,
            );
        assert forall|i: int, j: int| 0 <= i < kept.len() <= j < order.len() implies raw[
            #[trigger] order[i]
        ].q >= raw[#[trigger] order[j]].q by {
            assert(key_le(quality_key()(sorted[i]), quality_key()(sorted[j])));
            assert(sorted[i] == raw[order[i]]);
            assert(sorted[j] == raw[order[j]]);
        }
        assert forall|i: int| 0 <= i < kept.len() implies #[trigger] kept[i] == raw[order[i]] by {
            assert(sorted[i] == raw[order[i]]);
        }
        assert(keeps_best(raw, kept, order));
    }
}

/// Whether `pruned` are the minutiae that pruning leaves: those kept, from
/// left to right, in the order in which they were kept where they stand at
/// the same place.
pub open spec fn is_pruned(
    config: Config,
    raw: Seq<RawMinutiaCombined>,
    max_minutiae: int,
    pruned: Seq<Minutia>,
) -> bool {
    exists|kept: Seq<RawMinutiaCombined>, sorted: Seq<RawMinutiaCombined>, order: Seq<int>|
        is_kept(config, raw, max_minutiae, kept) && #[trigger] is_stable_sort(
            sorted,
            kept,
            order,
            position_key(),
        ) && pruned == minutiae_of(sorted)
}

/// Keeps the `max_minutiae` minutiae of the best quality and puts them in
/// order from left to right.
pub fn prune(config: &Config, minutiae: &[RawMinutiaCombined], max_minutiae: u32) -> (pruned: Vec<
    Minutia,
>)
    ensures
        is_pruned(*config, minutiae@, max_minutiae as int, pruned@),
        pruned@.len() == if minutiae@.len() <= max_minutiae {
            minutiae@.len()
        } else {
            max_minutiae as nat
        },
        is_sorted_by(pruned@, |minutia: Minutia| (minutia.x as int, minutia.y as int, 0int)),
{
    let count: usize = minutiae.len();
    let limit: usize = max_minutiae as usize;
    let mut kept: Vec<RawMinutiaCombined> = Vec::new();
    if count > limit {
        if config.strict_mode {
            let mut quality: Vec<i32> = Vec::new();
            let mut i: usize = 0;
            while i < count
                invariant
                    i <= count,
                    count == minutiae@.len(),
                    quality@.len() == i,
                    forall|k: int| 0 <= k < i ==> #[trigger] quality@[k] == minutiae@[k].q,
                decreases count - i,
            {
                quality.push(minutiae[i].q);
                i = i + 1;
            }
            assert(quality@ =~= qualities(minutiae@));
            let order: Vec<usize> = sort_order_decreasing(quality.as_slice());
            let mut k: usize = 0;
            while k < limit
                invariant
                    k <= limit < count,
                    count == minutiae@.len(),
                    order@ == weird_order(qualities(minutiae@)),
                    order@.len() == count,
                    forall|m: int| 0 <= m < order@.len() ==> #[trigger] order@[m] < count,
                    kept@.len() == k,
                    forall|m: int|
                        0 <= m < k ==> #[trigger] kept@[m] == minutiae@[order@[m] as int],
                decreases limit - k,
            {
                kept.push(minutiae[order[k]]);
                k = k + 1;
            }
            assert(kept@ =~= Seq::new(
                limit as nat,
                |i: int| minutiae@[weird_order(qualities(minutiae@))[i] as int],
            ));
        } else {
            let mut all: Vec<RawMinutiaCombined> = copy_of(minutiae);
            sort_by_quality(&mut all);
            all.truncate(limit);
            assert(all@ =~= all@.take(all@.len() as int));
            kept = all;
        }
    } else {
        kept = copy_of(minutiae);
    }
    assert(is_kept(*config, minutiae@, max_minutiae as int, kept@));
    let ghost chosen = kept@;
    sort_by_position(&mut kept);
    let ghost order = choose|order: Seq<int>|
        is_stable_sort(kept@, chosen, order, position_key());
    let mut pruned: Vec<Minutia> = Vec::new();
    let mut k: usize = 0;
    while k < kept.len()
        invariant
            k <= kept@.len(),
            pruned@.len() == k,
            forall|m: int| 0 <= m < k ==> #[trigger] pruned@[m] == kept@[m].minutia(),
        decreases kept@.len() - k,
    {
        let raw: RawMinutiaCombined = kept[k];
        pruned.push(Minutia { x: raw.x, y: raw.y, theta: raw.t, kind: raw.kind });
        k = k + 1;
    }
    proof {
        assert(pruned@ =~= minutiae_of(kept@));
        assert(is_stable_sort(kept@, chosen, order, position_key()));
        let key = |minutia: Minutia| (minutia.x as int, minutia.y as int, 0int);
        assert forall|i: int, j: int| 0 <= i < j < pruned@.len() implies key_le(
            key(pruned@[i]),
            key(pruned@[j]),
        ) by {
            assert(key_le(position_key()(kept@[i]), position_key()(kept@[j])));
        }
    }
    pruned
}

/// Copies a list of raw minutiae.
fn copy_of(minutiae: &[RawMinutiaCombined]) -> (copy: Vec<RawMinutiaCombined>)
    ensures
        copy@ == minutiae@,
{
    let mut copy: Vec<RawMinutiaCombined> = Vec::new();
    let mut i: usize = 0;
    while i < minutiae.len()
        invariant
            i <= minutiae@.len(),
            copy@.len() == i,
            forall|k: int| 0 <= k < i ==> #[trigger] copy@[k] == minutiae@[k],
        decreases minutiae@.len() - i,
    {
        copy.push(minutiae[i]);
        i = i + 1;
    }
    assert(copy@ =~= minutiae@);
    copy
}

/// How many of the first `n` edges are no longer than `max_distance`
/// squared.
pub open spec fn count_within(edges: Seq<Edge>, max_distance: int, n: int) -> int
    decreases n,
{
    if n <= 0 {
        0
    } else {
        count_within(edges, max_distance, n - 1) + if edges[n - 1].distance_squared
            <= max_distance {
            1int
        } else {
            0int
        }
    }
}

/// Whether the lengths of the edges never go down.
pub open spec fn lengths_rise(edges: Seq<Edge>) -> bool {
    forall|i: int, j: int|
        0 <= i < j < edges.len() ==> edges[i].distance_squared <= edges[j].distance_squared
}

/// Edges sorted by their key are sorted by length.
pub proof fn lemma_sorted_lengths_rise(edges: Seq<Edge>)
    requires
        is_sorted_by(edges, edge_key()),
    ensures
        lengths_rise(edges),
{
    assert forall|i: int, j: int| 0 <= i < j < edges.len() implies edges[i].distance_squared
        <= edges[j].distance_squared by {
        assert(key_le(edge_key()(edges[i]), edge_key()(edges[j])));
    }
}

/// Where the first `split` edges are short enough and all others are not,
/// `split` edges are short enough.
proof fn lemma_count_within_split(edges: Seq<Edge>, max_distance: int, split: int, n: int)
    requires
        0 <= split <= n <= edges.len(),
        forall|i: int| 0 <= i < split ==> (#[trigger] edges[i]).distance_squared <= max_distance,
        forall|i: int|
            split <= i < edges.len() ==> (#[trigger] edges[i]).distance_squared > max_distance,
    ensures
        count_within(edges, max_distance, n) == split,
        forall|m: int| 0 <= m <= split ==> count_within(edges, max_distance, m) == m,
    decreases n,
{
    if n > split {
        lemma_count_within_split(edges, max_distance, split, n - 1);
        assert(edges[n - 1].distance_squared > max_distance);
    } else {
        assert forall|m: int| 0 <= m <= split implies count_within(edges, max_distance, m)
            == m by {
            lemma_count_within_all(edges, max_distance, m);
        }
    }
}

/// Where the first `m` edges are short enough, `m` edges are counted among them.
proof fn lemma_count_within_all(edges: Seq<Edge>, max_distance: int, m: int)
    requires
        0 <= m <= edges.len(),
        forall|i: int| 0 <= i < m ==> (#[trigger] edges[i]).distance_squared <= max_distance,
    ensures
        count_within(edges, max_distance, m) == m,
    decreases m,
{
    if m > 0 {
        lemma_count_within_all(edges, max_distance, m - 1);
        assert(edges[m - 1].distance_squared <= max_distance);
    }
}

/// Counts the edges that are no longer than `max_distance` squared, in a
/// list sorted by length.
pub fn limit_edges_by_length(edges: &[Edge], max_distance: i32) -> (count: usize)
    requires
        lengths_rise(edges@),
    ensures
        count == count_within(edges@, max_distance as int, edges@.len() as int),
        count <= edges@.len(),
{
    let mut lower: usize = 0;
    let mut upper: usize = edges.len();
    while lower < upper
        invariant
            lower <= upper <= edges@.len(),
            lengths_rise(edges@),
            forall|i: int|
                0 <= i < lower ==> (#[trigger] edges@[i]).distance_squared <= max_distance,
            forall|i: int|
                upper <= i < edges@.len() ==> (#[trigger] edges@[i]).distance_squared
                    > max_distance,
        decreases upper - lower,
    {
        let midpoint: usize = lower + (upper - lower) / 2;
        if edges[midpoint].distance_squared > max_distance {
            assert forall|i: int| midpoint <= i < edges@.len() implies (
            #[trigger] edges@[i]).distance_squared > max_distance by {
                if i > midpoint {
                    assert(edges@[midpoint as int].distance_squared <= edges@[i].distance_squared);
                }
            }
            upper = midpoint;
        } else {
            assert forall|i: int| 0 <= i < midpoint + 1 implies (
            #[trigger] edges@[i]).distance_squared <= max_distance by {
                if i < midpoint {
                    assert(edges@[i].distance_squared <= edges@[midpoint as int].distance_squared);
                }
            }
            lower = midpoint + 1;
        }
    }
    proof {
        lemma_count_within_split(edges@, max_distance as int, lower as int, edges@.len() as int);
    }
    lower
}

/// How many edges of a sorted list to keep: as many as are no longer than
/// the configured squared length, but at least `MIN_NUMBER_OF_EDGES`, and
/// never more than there are.
pub open spec fn spec_limit_edges(config: Config, edges: Seq<Edge>) -> int {
    let count = count_within(
        edges,
        config.max_minutia_distance_squared as int,
        edges.len() as int,
    );
    let raised = if count < MIN_NUMBER_OF_EDGES {
        MIN_NUMBER_OF_EDGES as int
    } else {
        count
    };
    if raised > edges.len() {
        edges.len() as int
    } else {
        raised
    }
}

/// Tells how many edges of a sorted list to keep.
pub fn limit_edges(config: &Config, edges: &[Edge]) -> (limit: usize)
    requires
        is_sorted_by(edges@, edge_key()),
    ensures
        limit == spec_limit_edges(*config, edges@),
        limit <= edges@.len(),
{
    proof {
        lemma_sorted_lengths_rise(edges@);
    }
    let count: usize = limit_edges_by_length(edges, config.max_minutia_distance_squared);
    let raised: usize = if count < MIN_NUMBER_OF_EDGES {
        MIN_NUMBER_OF_EDGES
    } else {
        count
    };
    if raised > edges.len() {
        edges.len()
    } else {
        raised
    }
}

} // verus!
