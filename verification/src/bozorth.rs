//! The engine of a comparison: attempts to build clusters from every seed
//! pair, and the score of the best combination of the clusters built.

use vstd::prelude::*;
use crate::assigner::{cluster_of, unassigned, ClusterAssigner, MARKER_UNASSIGNED};
use crate::associations::EndpointAssociations;
use crate::clusters::{
    agrees_with, average_rotation, calculate_averages, calculate_points, cluster_of_selection,
    clusters_sound, encode_selected_endpoints, filter_selected, filtered_selection,
    find_compatible_disjoint_clusters_and_accumulate_points, lemma_average_rotation,
    lemma_endpoints_within, lemma_points_from_bound, lemma_retained, lemma_selected_points_bounded,
    lemma_total_points_nonnegative, pairs_within, pairwise_model, points_from, points_of,
    selected_points, selection_within, total_points, within_bits, ClusterSimilar, ClusterView,
    Clusters,
};
use crate::combine::{
    combine_clusters, combine_model, is_chain, lemma_combine_bounds, lemma_combine_is_best_chain,
    lemma_pairwise_model,
};
use crate::consts::{Config, MAX_NUMBER_OF_PAIRS};
use crate::groups::{
    find_next_model, find_next_not_conflicting_associations, group_views, groups_wf,
    lemma_associate_wf, lemma_clear_by_probe_wf, lemma_find_next_model, lemma_odometer_bounds,
    lemma_odometer_same, lemma_pow_radix_add, lemma_pow_radix_positive, merge_endpoints_into_group,
    odometer, pow_radix, EndpointGroup, GroupView, MAX_CANDIDATES,
};
use crate::growth::{
    assign_items, assign_model, group_bound, groups_extended, lemma_assign_model,
    lemma_traverse_model, lemma_visit_step, traverse_model, unlinked, visit_model, visit_step,
    worklist_wf, Growth,
};
use crate::math::is_angle;
use crate::pair_holder::{
    found_valid, lemma_find_by_first_valid, lemma_find_by_second_valid, Found, PairHolder,
    PairIndex,
};
use crate::types::{Endpoint, FingerprintKind, Format, Minutia, Pair};

verus! {

/// The slots after the first `n` pairs of the selection left their cluster.
pub open spec fn unassign_all(slots: Seq<u32>, strict: bool, selected: Seq<u32>, n: int) -> Seq<u32>
    decreases n,
{
    if n <= 0 {
        slots
    } else {
        unassigned(unassign_all(slots, strict, selected, n - 1), strict, selected[n - 1] as int)
    }
}

/// What an engine stands for: the clusters built, and the growth between
/// two traversals.
pub struct Engine {
    pub clusters: Seq<ClusterView>,
    pub growth: Growth,
}

/// The engine after one attempt to build a cluster from the pair
/// `start_pair`.
///
/// The traversal gathers a selection for a cluster with the next free
/// number. A selection of at least the fewest pairs of a cluster is
/// filtered by its mean rotation. If it is then still large enough, the
/// cluster is built from it. Otherwise every pair of the selection leaves
/// the cluster again.
pub open spec fn create_model(
    config: Config,
    index: PairIndex,
    probe: Seq<Minutia>,
    gallery: Seq<Minutia>,
    engine: Engine,
    start_pair: int,
) -> Engine {
    let cluster = engine.clusters.len() as u32;
    let traversed = traverse_model(
        config,
        index,
        Growth { selected: Seq::empty(), ..engine.growth },
        start_pair,
        cluster,
    );
    let selected = if traversed.selected.len() >= config.min_number_of_pairs_to_build_cluster {
        filtered_selection(config, index.pairs, traversed.selected)
    } else {
        traversed.selected
    };
    if selected.len() < config.min_number_of_pairs_to_build_cluster {
        Engine {
            clusters: engine.clusters,
            growth: Growth {
                selected,
                assigner: unassign_all(
                    traversed.assigner,
                    config.strict_mode,
                    selected,
                    selected.len() as int,
                ),
                ..traversed
            },
        }
    } else {
        Engine {
            clusters: engine.clusters.push(
                cluster_of_selection(probe, gallery, index.pairs, selected),
            ),
            growth: Growth { selected, ..traversed },
        }
    }
}

/// Whether the engine can stand between two attempts to build a cluster:
/// its growth is well formed with an empty worklist and groups within their
/// bound, and its clusters are no more than allowed, sound, and of no more
/// points each than all pairs have together.
pub open spec fn engine_wf(config: Config, index: PairIndex, engine: Engine) -> bool {
    &&& engine.growth.wf()
    &&& engine.growth.to_visit.len() == 0
    &&& engine.growth.groups.len() <= group_bound(config)
    &&& engine.clusters.len() <= config.max_number_of_clusters
    &&& clusters_sound(engine.clusters)
    &&& forall|c: int|
        0 <= c < engine.clusters.len() ==> (#[trigger] engine.clusters[c]).points <= total_points(
            index.pairs,
            index.pairs.len() as int,
        )
}

/// Whether the cluster built last holds no pair twice and owns each of its
/// pairs by the assigner.
pub open spec fn last_cluster_owns_pairs(engine: Engine) -> bool {
    let cluster = engine.clusters.last();
    &&& cluster.pairs.no_duplicates()
    &&& forall|k: int|
        0 <= k < cluster.pairs.len() ==> cluster_of(
            engine.growth.assigner,
            #[trigger] cluster.pairs[k] as int,
        ) == Some((engine.clusters.len() - 1) as u32)
}

/// An attempt to build a cluster leaves an engine that is well formed, with
/// at most one cluster more and with groups that extend the earlier ones.
/// Where it builds a cluster, every pair of that cluster is assigned to it,
/// and none occurs twice in it; the cluster has at least the fewest pairs
/// of a cluster, and its points are those of its pairs, added up.
pub proof fn lemma_create_model(
    config: Config,
    index: PairIndex,
    probe: Seq<Minutia>,
    gallery: Seq<Minutia>,
    engine: Engine,
    start_pair: int,
)
    requires
        config.wf(),
        engine_wf(config, index, engine),
        engine.clusters.len() < config.max_number_of_clusters,
        index.wf(),
        index.prepared,
        0 <= start_pair < index.pairs.len(),
        total_points(index.pairs, index.pairs.len() as int) <= u32::MAX,
    ensures
        engine_wf(config, index, create_model(config, index, probe, gallery, engine, start_pair)),
        groups_extended(
            engine.growth.groups,
            create_model(config, index, probe, gallery, engine, start_pair).growth.groups,
        ),
        engine.clusters.len() <= create_model(
            config,
            index,
            probe,
            gallery,
            engine,
            start_pair,
        ).clusters.len() <= engine.clusters.len() + 1,
        create_model(config, index, probe, gallery, engine, start_pair).clusters.len()
            > engine.clusters.len() ==> last_cluster_owns_pairs(
            create_model(config, index, probe, gallery, engine, start_pair),
        ),
        create_model(config, index, probe, gallery, engine, start_pair).clusters.len()
            > engine.clusters.len() ==> create_model(
            config,
            index,
            probe,
            gallery,
            engine,
            start_pair,
        ).clusters.last().pairs.len() >= config.min_number_of_pairs_to_build_cluster,
        create_model(config, index, probe, gallery, engine, start_pair).clusters.len()
            > engine.clusters.len() ==> create_model(
            config,
            index,
            probe,
            gallery,
            engine,
            start_pair,
        ).clusters.last().points == selected_points(
            index.pairs,
            create_model(config, index, probe, gallery, engine, start_pair).clusters.last().pairs,
        ),
{
    let cluster = engine.clusters.len() as u32;
    let fresh = Growth { selected: Seq::empty(), ..engine.growth };
    let traversed = traverse_model(config, index, fresh, start_pair, cluster);
    lemma_traverse_model(config, index, fresh, start_pair, cluster);
    let filtered = filtered_selection(config, index.pairs, traversed.selected);
    lemma_retained(
        traversed.selected,
        agrees_with(config, index.pairs, average_rotation(index.pairs, traversed.selected)),
    );
    let selected = if traversed.selected.len() >= config.min_number_of_pairs_to_build_cluster {
        filtered
    } else {
        traversed.selected
    };
    assert forall|k: int| 0 <= k < selected.len() implies #[trigger] selected[k]
        < index.pairs.len() && traversed.assigner[selected[k] as int] == cluster + 1 by {
        assert(traversed.selected.contains(selected[k]));
        let j = choose|j: int| 0 <= j < traversed.selected.len() && traversed.selected[j]
            == selected[k];
        assert(traversed.selected[j] < index.pairs.len());
    }
    let after = create_model(config, index, probe, gallery, engine, start_pair);
    if selected.len() < config.min_number_of_pairs_to_build_cluster {
        lemma_unassign_all(
            traversed.assigner,
            config.strict_mode,
            selected,
            selected.len() as int,
        );
    } else {
        lemma_selected_points_bounded(index.pairs, selected);
        lemma_endpoints_within(index.pairs, selected);
        lemma_average_rotation(index.pairs, selected);
        let built = cluster_of_selection(probe, gallery, index.pairs, selected);
        assert forall|c: int| 0 <= c < after.clusters.len() implies {
            &&& is_angle((#[trigger] after.clusters[c]).averages.delta_theta as int)
            &&& within_bits(after.clusters[c].probe_endpoints)
            &&& within_bits(after.clusters[c].gallery_endpoints)
            &&& after.clusters[c].points <= total_points(index.pairs, index.pairs.len() as int)
        } by {
            if c < engine.clusters.len() {
                assert(after.clusters[c] == engine.clusters[c]);
            }
        }
        assert(after.clusters.last() == built);
    }
}

/// Pairs that leave their cluster leave as many slots as there were.
proof fn lemma_unassign_all(slots: Seq<u32>, strict: bool, selected: Seq<u32>, n: int)
    requires
        0 <= n <= selected.len(),
        forall|k: int| 0 <= k < selected.len() ==> #[trigger] selected[k] < slots.len(),
    ensures
        unassign_all(slots, strict, selected, n).len() == slots.len(),
    decreases n,
{
    if n > 0 {
        lemma_unassign_all(slots, strict, selected, n - 1);
        assert(selected[n - 1] < slots.len());
    }
}

/// The number that the selections of the groups spell when the list of
/// groups is filled up to `places` groups with groups that select their
/// first candidate.
pub open spec fn padded(groups: Seq<GroupView>, places: int) -> int {
    odometer(groups, groups.len() as int) * pow_radix(places - groups.len())
}

/// How many selections of candidates the groups can still move on to, at
/// the most.
pub open spec fn attempts_left(config: Config, groups: Seq<GroupView>) -> int {
    pow_radix(group_bound(config)) - padded(groups, group_bound(config))
}

/// The padded number of well-formed groups is a number of as many digits as
/// there are places.
proof fn lemma_padded_bounds(groups: Seq<GroupView>, places: int)
    requires
        groups_wf(groups),
        groups.len() <= places,
    ensures
        0 <= padded(groups, places) < pow_radix(places),
{
    let len = groups.len() as int;
    lemma_odometer_bounds(groups, len);
    lemma_pow_radix_add(len, places - len);
    lemma_pow_radix_positive(places - len);
    let value = odometer(groups, len);
    let top = pow_radix(len);
    let rest = pow_radix(places - len);
    assert(0 <= value * rest <= (top - 1) * rest) by (nonlinear_arith)
        requires
            0 <= value <= top - 1,
            rest >= 1,
    ;
    assert((top - 1) * rest == top * rest - rest) by (nonlinear_arith);
}

/// Groups that are appended with their first candidate selected leave the
/// padded number as it is.
pub proof fn lemma_padded_extended(earlier: Seq<GroupView>, later: Seq<GroupView>, places: int)
    requires
        groups_extended(earlier, later),
        later.len() <= places,
    ensures
        padded(later, places) == padded(earlier, places),
    decreases later.len() - earlier.len(),
{
    let short = earlier.len() as int;
    let long = later.len() as int;
    if long > short {
        let trimmed = later.drop_last();
        assert forall|i: int| 0 <= i < short implies (#[trigger] trimmed[i]).endpoint_index
            == earlier[i].endpoint_index by {
            assert(later[i].endpoint_index == earlier[i].endpoint_index);
        }
        assert forall|i: int| short <= i < trimmed.len() implies (
        #[trigger] trimmed[i]).endpoint_index == 0 by {
            assert(later[i].endpoint_index == 0);
        }
        lemma_padded_extended(earlier, trimmed, places);
        assert forall|j: int| 0 <= j < long - 1 implies (#[trigger] later[j]).endpoint_index
            == trimmed[j].endpoint_index by {}
        lemma_odometer_same(later, trimmed, long - 1);
        assert(later[long - 1].endpoint_index == 0);
        let value = odometer(trimmed, long - 1);
        let rest = pow_radix(places - long);
        assert(pow_radix(places - long + 1) == MAX_CANDIDATES * rest);
        assert((value * MAX_CANDIDATES) * rest == value * (MAX_CANDIDATES * rest))
            by (nonlinear_arith);
    } else {
        assert forall|j: int| 0 <= j < short implies (#[trigger] later[j]).endpoint_index
            == earlier[j].endpoint_index by {}
        lemma_odometer_same(later, earlier, short);
    }
}

/// A greater number spelled by as many groups leaves fewer attempts.
pub proof fn lemma_padded_grows(earlier: Seq<GroupView>, later: Seq<GroupView>, places: int)
    requires
        earlier.len() == later.len(),
        later.len() <= places,
        odometer(later, later.len() as int) > odometer(earlier, earlier.len() as int),
    ensures
        padded(later, places) > padded(earlier, places),
{
    lemma_pow_radix_positive(places - later.len());
    let a = odometer(earlier, earlier.len() as int);
    let b = odometer(later, later.len() as int);
    let rest = pow_radix(places - later.len());
    assert(b * rest > a * rest) by (nonlinear_arith)
        requires
            b > a,
            rest >= 1,
    ;
}

/// The engine with the groups and the table that the search for the next
/// selection of candidates leaves.
pub open spec fn moved_on(config: Config, engine: Engine) -> Engine {
    let next = find_next_model(config, engine.growth.groups, engine.growth.table);
    Engine { growth: Growth { groups: next.1, table: next.2, ..engine.growth }, ..engine }
}

/// Moving the groups on keeps the engine well formed, and where a further
/// selection is found, fewer attempts are left.
pub proof fn lemma_moved_on(config: Config, index: PairIndex, engine: Engine)
    requires
        engine_wf(config, index, engine),
    ensures
        engine_wf(config, index, moved_on(config, engine)),
        find_next_model(config, engine.growth.groups, engine.growth.table).0 ==> attempts_left(
            config,
            moved_on(config, engine).growth.groups,
        ) < attempts_left(config, engine.growth.groups),
        0 <= attempts_left(config, moved_on(config, engine).growth.groups),
        0 <= attempts_left(config, engine.growth.groups),
{
    let next = find_next_model(config, engine.growth.groups, engine.growth.table);
    lemma_find_next_model(config, engine.growth.groups, engine.growth.table);
    lemma_padded_bounds(engine.growth.groups, group_bound(config));
    lemma_padded_bounds(next.1, group_bound(config));
    if next.0 {
        lemma_padded_grows(engine.growth.groups, next.1, group_bound(config));
    }
}

/// The engine after all attempts to build clusters from the pair
/// `start_pair`: one attempt for each selection of candidates that the
/// groups can move on to, until the most clusters allowed are built or no
/// selection is left.
pub open spec fn attempts_model(
    config: Config,
    index: PairIndex,
    probe: Seq<Minutia>,
    gallery: Seq<Minutia>,
    engine: Engine,
    start_pair: int,
) -> Engine
    decreases attempts_left(config, engine.growth.groups),
    when config.wf() && engine_wf(config, index, engine) && engine.clusters.len()
        < config.max_number_of_clusters && index.wf() && index.prepared && 0 <= start_pair
        < index.pairs.len() && total_points(index.pairs, index.pairs.len() as int) <= u32::MAX
{
    let created = create_model(config, index, probe, gallery, engine, start_pair);
    if created.clusters.len() > config.max_number_of_clusters - 1 {
        created
    } else {
        let moved = moved_on(config, created);
        if !find_next_model(config, created.growth.groups, created.growth.table).0 {
            moved
        } else {
            proof {
                lemma_create_model(config, index, probe, gallery, engine, start_pair);
                lemma_padded_extended(
                    engine.growth.groups,
                    created.growth.groups,
                    group_bound(config),
                );
                lemma_moved_on(config, index, created);
            }
            attempts_model(config, index, probe, gallery, moved, start_pair)
        }
    }
}

/// All attempts from one seed leave the engine well formed.
pub proof fn lemma_attempts_model(
    config: Config,
    index: PairIndex,
    probe: Seq<Minutia>,
    gallery: Seq<Minutia>,
    engine: Engine,
    start_pair: int,
)
    requires
        config.wf(),
        engine_wf(config, index, engine),
        engine.clusters.len() < config.max_number_of_clusters,
        index.wf(),
        index.prepared,
        0 <= start_pair < index.pairs.len(),
        total_points(index.pairs, index.pairs.len() as int) <= u32::MAX,
    ensures
        engine_wf(config, index, attempts_model(config, index, probe, gallery, engine, start_pair)),
    decreases attempts_left(config, engine.growth.groups),
{
    let created = create_model(config, index, probe, gallery, engine, start_pair);
    lemma_create_model(config, index, probe, gallery, engine, start_pair);
    if created.clusters.len() <= config.max_number_of_clusters - 1 {
        let moved = moved_on(config, created);
        lemma_moved_on(config, index, created);
        if find_next_model(config, created.growth.groups, created.growth.table).0 {
            lemma_padded_extended(engine.growth.groups, created.growth.groups, group_bound(config));
            lemma_attempts_model(config, index, probe, gallery, moved, start_pair);
        }
    }
}

/// The number of pairs that are tried as seeds: all but the last in strict
/// mode, all otherwise.
pub open spec fn seed_limit(config: Config, index: PairIndex) -> int {
    if config.strict_mode && index.pairs.len() > 0 {
        index.pairs.len() - 1
    } else {
        index.pairs.len() as int
    }
}

/// The engine with the first endpoints of the seed linked and no groups.
pub open spec fn seeded(engine: Engine, seed: Pair) -> Engine {
    Engine {
        growth: Growth {
            table: engine.growth.table.associate(seed.probe_k, seed.gallery_k),
            groups: Seq::empty(),
            ..engine.growth
        },
        ..engine
    }
}

/// The engine with the probe's first endpoint of the seed unlinked.
pub open spec fn unseeded(engine: Engine, seed: Pair) -> Engine {
    Engine {
        growth: Growth { table: engine.growth.table.clear_by_probe(seed.probe_k), ..engine.growth },
        ..engine
    }
}

/// The engine after the pairs from `seed` on were tried as seeds. A pair
/// that has a cluster or a marker in the assigner is passed. Once the most
/// clusters allowed are built, no further pair is tried.
pub open spec fn seeds_model(
    config: Config,
    index: PairIndex,
    probe: Seq<Minutia>,
    gallery: Seq<Minutia>,
    engine: Engine,
    seed: int,
) -> Engine
    decreases index.pairs.len() - seed,
{
    if seed < 0 || seed >= seed_limit(config, index) {
        engine
    } else if cluster_of(engine.growth.assigner, seed).is_some() {
        seeds_model(config, index, probe, gallery, engine, seed + 1)
    } else {
        let grown = attempts_model(
            config,
            index,
            probe,
            gallery,
            seeded(engine, index.pairs[seed]),
            seed,
        );
        if grown.clusters.len() > config.max_number_of_clusters - 1 {
            grown
        } else {
            seeds_model(
                config,
                index,
                probe,
                gallery,
                unseeded(grown, index.pairs[seed]),
                seed + 1,
            )
        }
    }
}

/// Fewest minutiae of a print that can be compared.
pub const MINIMAL_NUMBER_OF_MINUTIA: usize = 10;

/// Among the first `n` clusters, the last of those that have the most points
/// together with the clusters they are linked with.
pub open spec fn richest_cluster(clusters: Seq<ClusterView>, n: int) -> int
    decreases n,
{
    if n <= 1 {
        0
    } else {
        let earlier = richest_cluster(clusters, n - 1);
        if clusters[n - 1].points_including_compatible_clusters
            >= clusters[earlier].points_including_compatible_clusters {
            n - 1
        } else {
            earlier
        }
    }
}

/// No cluster has more points together with its linked clusters than the
/// richest one, and none behind the richest one has as many.
pub proof fn lemma_richest_cluster(clusters: Seq<ClusterView>, n: int)
    requires
        1 <= n <= clusters.len(),
    ensures
        0 <= richest_cluster(clusters, n) < n,
        forall|c: int|
            0 <= c < n ==> (#[trigger] clusters[c]).points_including_compatible_clusters
                <= clusters[richest_cluster(clusters, n)].points_including_compatible_clusters,
        forall|c: int|
            richest_cluster(clusters, n) < c < n ==> (
            #[trigger] clusters[c]).points_including_compatible_clusters
                < clusters[richest_cluster(clusters, n)].points_including_compatible_clusters,
    decreases n,
{
    if n > 1 {
        lemma_richest_cluster(clusters, n - 1);
    }
}

/// The richest cluster, followed by the clusters it is linked with; nothing
/// where there is no cluster.
pub open spec fn richest_with_linked(clusters: Seq<ClusterView>) -> Seq<u32> {
    if clusters.len() == 0 {
        Seq::empty()
    } else {
        let richest = richest_cluster(clusters, clusters.len() as int);
        seq![richest as u32] + clusters[richest].compatible_clusters
    }
}

/// The outcome of a comparison: no score where either print has fewer than
/// ten minutiae; otherwise the points of the best combination of compatible
/// clusters. Where the score reaches the threshold, the list names the
/// clusters that those of the best combination are linked with; below it,
/// the richest cluster and the clusters that one is linked with.
pub open spec fn match_model(
    config: Config,
    index: PairIndex,
    probe: Seq<Minutia>,
    gallery: Seq<Minutia>,
    format: Format,
) -> Result<(u32, Seq<u32>), ()> {
    if probe.len() < MINIMAL_NUMBER_OF_MINUTIA || gallery.len() < MINIMAL_NUMBER_OF_MINUTIA {
        Err(())
    } else {
        let linked = matched_clusters(config, index, probe, gallery, format);
        let first = combine_model(linked, false);
        if first.0 < config.score_threshold {
            Ok((first.0, richest_with_linked(linked)))
        } else {
            Ok(combine_model(linked, true))
        }
    }
}

/// The clusters of a comparison, each linked with the compatible ones behind
/// it.
pub open spec fn matched_clusters(
    config: Config,
    index: PairIndex,
    probe: Seq<Minutia>,
    gallery: Seq<Minutia>,
    format: Format,
) -> Seq<ClusterView> {
    pairwise_model(
        config,
        seeds_model(
            config,
            index,
            probe,
            gallery,
            Engine { clusters: Seq::empty(), growth: Growth::cleared() },
            0,
        ).clusters,
        format,
    )
}

/// Trying every seed leaves the engine well formed.
pub proof fn lemma_seeds_model(
    config: Config,
    index: PairIndex,
    probe: Seq<Minutia>,
    gallery: Seq<Minutia>,
    engine: Engine,
    seed: int,
)
    requires
        config.wf(),
        engine_wf(config, index, engine),
        engine.clusters.len() < config.max_number_of_clusters,
        index.wf(),
        index.prepared,
        total_points(index.pairs, index.pairs.len() as int) <= u32::MAX,
    ensures
        engine_wf(config, index, seeds_model(config, index, probe, gallery, engine, seed)),
    decreases index.pairs.len() - seed,
{
    if seed < 0 || seed >= seed_limit(config, index) {
    } else if cluster_of(engine.growth.assigner, seed).is_some() {
        lemma_seeds_model(config, index, probe, gallery, engine, seed + 1);
    } else {
        let pair = index.pairs[seed];
        assert(pair.wf());
        let started = seeded(engine, pair);
        lemma_associate_wf(engine.growth.table, pair.probe_k, pair.gallery_k);
        lemma_attempts_model(config, index, probe, gallery, started, seed);
        let grown = attempts_model(config, index, probe, gallery, started, seed);
        if grown.clusters.len() <= config.max_number_of_clusters - 1 {
            lemma_clear_by_probe_wf(grown.growth.table, pair.probe_k);
            lemma_seeds_model(config, index, probe, gallery, unseeded(grown, pair), seed + 1);
        }
    }
}

/// The score of a comparison is the greatest sum of points of clusters of
/// which each is linked with all that follow it: no such chain of clusters
/// has more points, and one has as many. So the score is at least the
/// points of every single cluster, and at most those of all clusters.
pub proof fn lemma_match_model(
    config: Config,
    index: PairIndex,
    probe: Seq<Minutia>,
    gallery: Seq<Minutia>,
    format: Format,
)
    requires
        config.wf(),
        index.wf(),
        index.prepared,
        total_points(index.pairs, index.pairs.len() as int) * config.max_number_of_clusters
            <= u32::MAX,
        probe.len() >= MINIMAL_NUMBER_OF_MINUTIA,
        gallery.len() >= MINIMAL_NUMBER_OF_MINUTIA,
    ensures
        match_model(config, index, probe, gallery, format).is_ok(),
        forall|chain: Seq<u32>|
            #[trigger] is_chain(matched_clusters(config, index, probe, gallery, format), chain)
                ==> points_of(matched_clusters(config, index, probe, gallery, format), chain)
                <= match_model(config, index, probe, gallery, format).unwrap().0,
        exists|chain: Seq<u32>|
            #[trigger] is_chain(matched_clusters(config, index, probe, gallery, format), chain)
                && points_of(matched_clusters(config, index, probe, gallery, format), chain)
                == match_model(config, index, probe, gallery, format).unwrap().0,
        forall|c: int|
            0 <= c < matched_clusters(config, index, probe, gallery, format).len() ==> (
            #[trigger] matched_clusters(config, index, probe, gallery, format)[c]).points
                <= match_model(config, index, probe, gallery, format).unwrap().0,
        match_model(config, index, probe, gallery, format).unwrap().0 <= points_from(
            matched_clusters(config, index, probe, gallery, format),
            0,
            matched_clusters(config, index, probe, gallery, format).len() as int,
        ),
{
    let points = total_points(index.pairs, index.pairs.len() as int);
    lemma_total_points_nonnegative(index.pairs, index.pairs.len() as int);
    assert(points <= u32::MAX) by (nonlinear_arith)
        requires
            points * config.max_number_of_clusters <= u32::MAX,
            config.max_number_of_clusters >= 1,
            points >= 0,
    ;
    let fresh = Engine { clusters: Seq::empty(), growth: Growth::cleared() };
    assert(Growth::cleared().table.wf());
    lemma_seeds_model(config, index, probe, gallery, fresh, 0);
    let grown = seeds_model(config, index, probe, gallery, fresh, 0).clusters;
    lemma_points_from_bound(grown, grown.len() as int, points);
    assert(grown.len() * points <= u32::MAX) by (nonlinear_arith)
        requires
            points * config.max_number_of_clusters <= u32::MAX,
            0 <= grown.len() <= config.max_number_of_clusters,
            points >= 0,
    ;
    lemma_pairwise_model(config, grown, format);
    let linked = matched_clusters(config, index, probe, gallery, format);
    lemma_combine_is_best_chain(linked, false);
    lemma_combine_is_best_chain(linked, true);
    lemma_combine_bounds(linked, false);
    lemma_combine_bounds(linked, true);
}

/// The state of the matching engine, reused from one comparison to the next.
pub struct BozorthState {
    pub clusters: Clusters,
    pub associator: EndpointAssociations,
    pub assigner: ClusterAssigner,
    /// When there is an endpoint that has more than one potentially compatible endpoint
    /// from another fingerprint, a group is created that holds these endpoints.
    /// Later, a brute force checking is performed that looks for a combinations of associations
    /// for which there are no conflicts among all the groups.
    pub groups: Vec<EndpointGroup>,
    pub selected_pairs: Vec<u32>,
}

impl View for BozorthState {
    type V = Engine;

    open spec fn view(&self) -> Engine {
        Engine { clusters: self.clusters@, growth: self.growth(Seq::empty()) }
    }
}

impl BozorthState {
    /// The engine's growth with the given worklist.
    pub open spec fn growth(&self, to_visit: Seq<(Endpoint, Endpoint)>) -> Growth {
        Growth {
            table: self.associator@,
            assigner: self.assigner@,
            groups: group_views(self.groups@),
            selected: self.selected_pairs@,
            to_visit,
        }
    }

    /// The clusters built so far.
    pub open spec fn built(&self) -> Clusters {
        self.clusters
    }

    /// The engine is well formed where its parts are.
    pub open spec fn wf(&self) -> bool {
        &&& self.clusters.wf()
        &&& self.associator.wf()
        &&& self.assigner.wf()
        &&& groups_wf(group_views(self.groups@))
    }

    /// The view shows the clusters of the field `clusters`, which are the
    /// clusters built so far, and the growth without a worklist; the growth
    /// with a worklist differs from that in the worklist alone. The clusters
    /// of a well formed engine are well formed.
    pub proof fn lemma_view(&self, to_visit: Seq<(Endpoint, Endpoint)>)
        ensures
            self@.clusters == self.clusters@,
            self.built() == self.clusters,
            self@.growth == self.growth(Seq::empty()),
            self.growth(to_visit).to_visit == to_visit,
            self.growth(to_visit) == (Growth { to_visit, ..self@.growth }),
            self.wf() ==> self.clusters.wf(),
    {
    }

    /// A well-formed engine holds a well-formed growth and well-formed clusters.
    pub proof fn lemma_wf(&self, to_visit: Seq<(Endpoint, Endpoint)>)
        requires
            self.wf(),
            forall|k: int|
                0 <= k < to_visit.len() ==> (#[trigger] to_visit[k]).0.wf() && to_visit[k].1.wf(),
        ensures
            self.growth(to_visit).wf(),
            self.built().wf(),
    {
    }

    /// An engine that holds nothing, with room for the most clusters allowed.
    pub fn new(config: &Config) -> (state: BozorthState)
        ensures
            state.wf(),
            state.built()@ == Seq::<ClusterView>::empty(),
            state@ == (Engine { clusters: Seq::empty(), growth: Growth::cleared() }),
    {
        let state = BozorthState {
            clusters: Clusters::with_capacity(config.max_number_of_clusters),
            associator: EndpointAssociations::new(),
            assigner: ClusterAssigner::new(),
            groups: Vec::new(),
            selected_pairs: Vec::new(),
        };
        assert(group_views(state.groups@) =~= Seq::<GroupView>::empty());
        assert(state.selected_pairs@ =~= Seq::<u32>::empty());
        state
    }

    /// Number of groups of rival partners at present.
    pub fn len(&self) -> (len: usize)
        ensures
            len == self.growth(Seq::empty()).groups.len(),
    {
        self.groups.len()
    }

    /// Empties the engine for the next comparison.
    pub fn clear(&mut self)
        requires
            old(self).wf(),
        ensures
            final(self).wf(),
            final(self).built()@ == Seq::<ClusterView>::empty(),
            final(self).growth(Seq::empty()) == Growth::cleared(),
            final(self)@ == (Engine { clusters: Seq::empty(), growth: Growth::cleared() }),
    {
        self.clusters.clear();
        self.associator.clear();
        self.assigner.clear();
        self.groups.clear();
        self.selected_pairs.clear();
        assert(group_views(self.groups@) =~= Seq::<GroupView>::empty());
        assert(self.selected_pairs@ =~= Seq::<u32>::empty());
    }
}

/// Handles one pair that the traversal reached through the endpoints
/// `probe_endpoint` and `gallery_endpoint`.
pub fn assign_cluster_to_endpoints(
    config: &Config,
    cluster: u32,
    pair_index: u32,
    probe_endpoint: Endpoint,
    gallery_endpoint: Endpoint,
    state: &mut BozorthState,
    to_visit: &mut Vec<(Endpoint, Endpoint)>,
)
    requires
        old(state).wf(),
        pair_index < MAX_NUMBER_OF_PAIRS,
        cluster < MARKER_UNASSIGNED - 1,
        probe_endpoint.wf(),
        gallery_endpoint.wf(),
    ensures
        final(state).growth(final(to_visit)@) == assign_model(
            *config,
            old(state).growth(old(to_visit)@),
            cluster,
            pair_index,
            probe_endpoint,
            gallery_endpoint,
        ),
        final(state).wf(),
        final(state).built() == old(state).built(),
{
    let ghost before = state.growth(to_visit@);
    let existing_gallery: Option<Endpoint> = state.associator.get_associated_by_probe(
        probe_endpoint,
    );
    let existing_probe: Option<Endpoint> = state.associator.get_associated_by_gallery(
        gallery_endpoint,
    );
    let known: bool = match state.assigner.get_cluster(pair_index) {
        Some(owner) => owner == cluster,
        None => false,
    };
    let mutual: bool = match existing_gallery {
        Some(endpoint) => endpoint == gallery_endpoint && existing_probe.is_some(),
        None => false,
    };
    if existing_gallery.is_none() && existing_probe.is_none() {
        // check whether this pair was seen previously when creating this cluster.
        // Unless it was, add it to the cluster.
        if !known {
            state.selected_pairs.push(pair_index);
            state.assigner.assign(pair_index, cluster);
        }
        // Associate endpoints, then save them in order to track last traversed
        // endpoint and clear the associations after the traversal.
        state.associator.associate(probe_endpoint, gallery_endpoint);
        to_visit.push((probe_endpoint, gallery_endpoint));
    } else if mutual {
        // If it was done when constructing the same cluster, we do not have to do anything.
        if known {
            return ;
        }
        state.selected_pairs.push(pair_index);
        state.assigner.assign(pair_index, cluster);
        if config.strict_mode {
            // The legacy matcher holds the number of the pair against the probe
            // endpoints of the worklist here, and strict mode does as it did.
            let mut should_insert: bool = true;
            let mut k: usize = 0;
            while k < to_visit.len()
                invariant
                    k <= to_visit@.len(),
                    should_insert == forall|j: int|
                        0 <= j < k ==> (#[trigger] to_visit@[j]).0 != Endpoint(pair_index),
                decreases to_visit@.len() - k,
            {
                if to_visit[k].0 == Endpoint(pair_index) {
                    should_insert = false;
                }
                k = k + 1;
            }
            if should_insert {
                to_visit.push((probe_endpoint, gallery_endpoint));
            }
        }
    } else {
        if config.strict_mode {
            // Limit number of produced groups.
            if state.groups.len() >= config.max_number_of_groups {
                return ;
            }
        }
        // there exists an association already so create a new group
        if let Some(endpoint) = existing_gallery {
            merge_endpoints_into_group(
                config,
                &mut state.groups,
                FingerprintKind::Probe,
                probe_endpoint,
                endpoint,
                gallery_endpoint,
            );
        }
        // just like previously...
        if let Some(endpoint) = existing_probe {
            merge_endpoints_into_group(
                config,
                &mut state.groups,
                FingerprintKind::Gallery,
                gallery_endpoint,
                endpoint,
                probe_endpoint,
            );
        }
    }
}

/// Handles the pairs found, one after the other.
fn assign_found(
    config: &Config,
    cluster: u32,
    items: &Vec<Found>,
    avoid: Option<(Endpoint, Endpoint)>,
    state: &mut BozorthState,
    to_visit: &mut Vec<(Endpoint, Endpoint)>,
    Ghost(index): Ghost<PairIndex>,
)
    requires
        old(state).wf(),
        worklist_wf(old(to_visit)@),
        cluster < MARKER_UNASSIGNED - 1,
        index.pairs.len() <= MAX_NUMBER_OF_PAIRS,
        found_valid(index, items@),
    ensures
        final(state).growth(final(to_visit)@) == assign_items(
            *config,
            old(state).growth(old(to_visit)@),
            cluster,
            items@,
            avoid,
        ),
        final(state).wf(),
        worklist_wf(final(to_visit)@),
        final(state).built() == old(state).built(),
{
    let ghost before = state.growth(to_visit@);
    let mut k: usize = 0;
    while k < items.len()
        invariant
            k <= items@.len(),
            state.wf(),
            worklist_wf(to_visit@),
            cluster < MARKER_UNASSIGNED - 1,
            index.pairs.len() <= MAX_NUMBER_OF_PAIRS,
            found_valid(index, items@),
            state.built() == old(state).built(),
            state.growth(to_visit@) == assign_items(
                *config,
                before,
                cluster,
                items@.take(k as int),
                avoid,
            ),
        decreases items@.len() - k,
    {
        let (place, probe, gallery): Found = items[k];
        proof {
            assert(items@[k as int].1.wf());
            assert(items@.take(k + 1).drop_last() =~= items@.take(k as int));
            assert(items@.take(k + 1).last() == items@[k as int]);
            lemma_assign_model(
                *config,
                state.growth(to_visit@),
                cluster,
                place as u32,
                probe,
                gallery,
                index.pairs.len() as int,
            );
        }
        let skip: bool = match avoid {
            Some((avoided_probe, avoided_gallery)) => probe == avoided_probe || gallery
                == avoided_gallery,
            None => false,
        };
        if !skip {
            assign_cluster_to_endpoints(
                config,
                cluster,
                place as u32,
                probe,
                gallery,
                state,
                to_visit,
            );
        }
        k = k + 1;
    }
    assert(items@.take(k as int) =~= items@);
}

/// Gathers the pairs of one cluster, starting from the pair `start_pair`.
pub fn traverse_edges(
    config: &Config,
    pairs: &PairHolder,
    start_pair: u32,
    cluster_index: u32,
    state: &mut BozorthState,
)
    requires
        old(state).wf(),
        pairs.wf(),
        pairs@.prepared,
        start_pair < pairs@.pairs.len(),
        cluster_index < MARKER_UNASSIGNED - 1,
    ensures
        final(state).growth(Seq::empty()) == traverse_model(
            *config,
            pairs@,
            old(state).growth(Seq::empty()),
            start_pair as int,
            cluster_index,
        ),
        final(state).wf(),
        final(state).built() == old(state).built(),
{
    proof {
        pairs.lemma_wf();
    }
    // queue of endpoints to visit
    let mut to_visit: Vec<(Endpoint, Endpoint)> = Vec::new();
    let start: Pair = *pairs.get(start_pair as usize);
    assert(start.wf());
    let (around, next_not_connected): (Vec<Found>, usize) = pairs.find_pairs_by_first_endpoint(
        start_pair as usize,
        start.probe_k,
        start.gallery_k,
    );
    proof {
        lemma_find_by_first_valid(pairs@, start_pair as int, start.probe_k, start.gallery_k);
        assert(state.growth(to_visit@) == Growth {
            to_visit: Seq::empty(),
            ..state.growth(Seq::empty())
        });
    }
    assign_found(config, cluster_index, &around, None, state, &mut to_visit, Ghost(pairs@));
    let ghost begun = state.growth(to_visit@);
    let mut cursor: usize = 0;
    while cursor < to_visit.len()
        invariant
            cursor <= to_visit@.len(),
            state.wf(),
            worklist_wf(to_visit@),
            pairs.wf(),
            pairs@.wf(),
            pairs@.prepared,
            start.wf(),
            cluster_index < MARKER_UNASSIGNED - 1,
            state.built() == old(state).built(),
            visit_model(*config, pairs@, begun, cluster_index, start, next_not_connected as int, 0)
                == visit_model(
                *config,
                pairs@,
                state.growth(to_visit@),
                cluster_index,
                start,
                next_not_connected as int,
                cursor as int,
            ),
        decreases state.growth(to_visit@).slack(cluster_index) - cursor,
    {
        let ghost current = state.growth(to_visit@);
        proof {
            state.lemma_wf(to_visit@);
            lemma_visit_step(
                *config,
                pairs@,
                current,
                cluster_index,
                start,
                next_not_connected as int,
                cursor as int,
            );
        }
        let (probe_endpoint, gallery_endpoint): (Endpoint, Endpoint) = to_visit[cursor];
        assert(to_visit@[cursor as int].0.wf());
        let (ending, _): (Vec<Found>, usize) = pairs.find_pairs_by_second_endpoint(
            next_not_connected,
            probe_endpoint,
            gallery_endpoint,
        );
        proof {
            lemma_find_by_second_valid(
                pairs@,
                next_not_connected as int,
                probe_endpoint,
                gallery_endpoint,
            );
        }
        assign_found(
            config,
            cluster_index,
            &ending,
            Some((start.probe_k, start.gallery_k)),
            state,
            &mut to_visit,
            Ghost(pairs@),
        );
        let (starting, _): (Vec<Found>, usize) = pairs.find_pairs_by_first_endpoint(
            next_not_connected,
            probe_endpoint,
            gallery_endpoint,
        );
        proof {
            lemma_find_by_first_valid(
                pairs@,
                next_not_connected as int,
                probe_endpoint,
                gallery_endpoint,
            );
        }
        assign_found(config, cluster_index, &starting, None, state, &mut to_visit, Ghost(pairs@));
        proof {
            assert(state.growth(to_visit@) == visit_step(
                *config,
                pairs@,
                current,
                cluster_index,
                start,
                next_not_connected as int,
                cursor as int,
            ));
        }
        cursor = cursor + 1;
    }
    // Restore previous state
    let ghost grown = state.growth(to_visit@);
    let mut k: usize = 0;
    while k < to_visit.len()
        invariant
            k <= to_visit@.len(),
            state.wf(),
            worklist_wf(to_visit@),
            state.built() == old(state).built(),
            state.growth(to_visit@) == (Growth {
                table: unlinked(grown.table, grown.to_visit, k as int),
                ..grown
            }),
        decreases to_visit@.len() - k,
    {
        assert(to_visit@[k as int].0.wf());
        state.associator.clear_by_probe(to_visit[k].0);
        k = k + 1;
    }
    proof {
        assert(state.growth(Seq::empty()) == Growth {
            to_visit: Seq::empty(),
            ..state.growth(to_visit@)
        });
    }
}

/// Makes every pair of the selection leave its cluster.
pub fn cleanup_selected(
    config: &Config,
    cluster_assigner: &mut ClusterAssigner,
    selected_pairs: &Vec<u32>,
)
    requires
        old(cluster_assigner).wf(),
        forall|k: int|
            0 <= k < selected_pairs@.len() ==> #[trigger] selected_pairs@[k] < MAX_NUMBER_OF_PAIRS,
    ensures
        final(cluster_assigner)@ == unassign_all(
            old(cluster_assigner)@,
            config.strict_mode,
            selected_pairs@,
            selected_pairs@.len() as int,
        ),
        final(cluster_assigner).wf(),
{
    let mut k: usize = 0;
    while k < selected_pairs.len()
        invariant
            k <= selected_pairs@.len(),
            cluster_assigner.wf(),
            forall|j: int|
                0 <= j < selected_pairs@.len() ==> #[trigger] selected_pairs@[j]
                    < MAX_NUMBER_OF_PAIRS,
            cluster_assigner@ == unassign_all(
                old(cluster_assigner)@,
                config.strict_mode,
                selected_pairs@,
                k as int,
            ),
        decreases selected_pairs@.len() - k,
    {
        cluster_assigner.unassign(config, selected_pairs[k]);
        k = k + 1;
    }
}

/// Tries to build one cluster from the pair `start_pair`.
pub fn maybe_create_cluster(
    config: &Config,
    probe_minutiae: &[Minutia],
    gallery_minutiae: &[Minutia],
    pairs: &PairHolder,
    start_pair: u32,
    state: &mut BozorthState,
)
    requires
        config.wf(),
        old(state).wf(),
        old(state)@.clusters.len() < config.max_number_of_clusters,
        pairs.wf(),
        pairs@.prepared,
        start_pair < pairs@.pairs.len(),
        pairs_within(pairs@.pairs, probe_minutiae@, gallery_minutiae@),
        total_points(pairs@.pairs, pairs@.pairs.len() as int) <= u32::MAX,
    ensures
        final(state)@ == create_model(
            *config,
            pairs@,
            probe_minutiae@,
            gallery_minutiae@,
            old(state)@,
            start_pair as int,
        ),
        final(state).wf(),
{
    let new_cluster_index: usize = state.clusters.len();
    state.selected_pairs.clear();
    let ghost fresh = state.growth(Seq::empty());
    proof {
        pairs.lemma_wf();
        assert(fresh == Growth { selected: Seq::empty(), ..old(state)@.growth });
        lemma_traverse_model(
            *config,
            pairs@,
            fresh,
            start_pair as int,
            new_cluster_index as u32,
        );
    }
    traverse_edges(config, pairs, start_pair, new_cluster_index as u32, state);
    let ghost traversed = state.growth(Seq::empty());
    proof {
        assert(selection_within(traversed.selected, pairs@.pairs)) by {
            assert forall|k: int| 0 <= k < traversed.selected.len() implies
                #[trigger] traversed.selected[k] < pairs@.pairs.len() by {}
        }
        lemma_selected_points_bounded(pairs@.pairs, traversed.selected);
        lemma_selection_short(pairs@.pairs, traversed.selected);
    }
    if state.selected_pairs.len() >= config.min_number_of_pairs_to_build_cluster {
        proof {
            lemma_retained(
                traversed.selected,
                agrees_with(
                    *config,
                    pairs@.pairs,
                    average_rotation(pairs@.pairs, traversed.selected),
                ),
            );
        }
        filter_selected(config, &mut state.selected_pairs, pairs);
    }
    let ghost selected = state.selected_pairs@;
    proof {
        assert forall|k: int| 0 <= k < selected.len() implies #[trigger] selected[k]
            < pairs@.pairs.len() by {
            assert(traversed.selected.contains(selected[k]));
        }
        lemma_selected_points_bounded(pairs@.pairs, selected);
    }
    if state.selected_pairs.len() < config.min_number_of_pairs_to_build_cluster {
        cleanup_selected(config, &mut state.assigner, &state.selected_pairs);
    } else {
        let points: u32 = calculate_points(pairs, &state.selected_pairs);
        let averages = calculate_averages(
            probe_minutiae,
            gallery_minutiae,
            pairs,
            &state.selected_pairs,
        );
        let endpoints = encode_selected_endpoints(pairs, &state.selected_pairs);
        let members: Vec<u32> = state.selected_pairs.clone();
        assert(members@ =~= selected);
        state.clusters.push(
            ClusterSimilar {
                points,
                points_including_compatible_clusters: 0,
                compatible_clusters: Vec::new(),
            },
            averages,
            endpoints,
            members,
        );
    }
}

/// Builds all clusters of a comparison in the engine.
fn grow_clusters(
    config: &Config,
    pairs: &PairHolder,
    probe_minutiae: &[Minutia],
    gallery_minutiae: &[Minutia],
    state: &mut BozorthState,
)
    requires
        config.wf(),
        old(state).wf(),
        engine_wf(*config, pairs@, old(state)@),
        old(state)@.clusters.len() < config.max_number_of_clusters,
        pairs.wf(),
        pairs@.prepared,
        pairs_within(pairs@.pairs, probe_minutiae@, gallery_minutiae@),
        total_points(pairs@.pairs, pairs@.pairs.len() as int) <= u32::MAX,
    ensures
        final(state).wf(),
        engine_wf(*config, pairs@, final(state)@),
        final(state)@ == seeds_model(
            *config,
            pairs@,
            probe_minutiae@,
            gallery_minutiae@,
            old(state)@,
            0,
        ),
{
    proof {
        pairs.lemma_wf();
    }
    let ghost target = seeds_model(
        *config,
        pairs@,
        probe_minutiae@,
        gallery_minutiae@,
        state@,
        0,
    );
    let count: usize = pairs.len();
    let limit: usize = if config.strict_mode && count > 0 {
        count - 1
    } else {
        count
    };
    let mut start_pair_index: usize = 0;
    let mut full: bool = false;
    while !full && start_pair_index < limit
        invariant
            config.wf(),
            state.wf(),
            pairs.wf(),
            pairs@.wf(),
            pairs@.prepared,
            pairs_within(pairs@.pairs, probe_minutiae@, gallery_minutiae@),
            total_points(pairs@.pairs, pairs@.pairs.len() as int) <= u32::MAX,
            limit == seed_limit(*config, pairs@),
            limit <= pairs@.pairs.len(),
            start_pair_index <= limit,
            engine_wf(*config, pairs@, state@),
            !full ==> state@.clusters.len() < config.max_number_of_clusters,
            target == if full {
                state@
            } else {
                seeds_model(
                    *config,
                    pairs@,
                    probe_minutiae@,
                    gallery_minutiae@,
                    state@,
                    start_pair_index as int,
                )
            },
        decreases limit - start_pair_index + if full { 0int } else { 1int },
    {
        if state.assigner.get_cluster(start_pair_index as u32).is_some() {
            // Was assigned to some cluster already so it was visited - no need to do it again
            start_pair_index = start_pair_index + 1;
            continue ;
        }
        let start_pair: Pair = *pairs.get(start_pair_index);
        assert(start_pair.wf());
        let ghost before = state@;
        state.associator.associate(start_pair.probe_k, start_pair.gallery_k);
        state.groups.clear();
        proof {
            assert(group_views(state.groups@) =~= Seq::<GroupView>::empty());
            assert(state@ == seeded(before, start_pair));
            lemma_associate_wf(before.growth.table, start_pair.probe_k, start_pair.gallery_k);
            lemma_attempts_model(
                *config,
                pairs@,
                probe_minutiae@,
                gallery_minutiae@,
                state@,
                start_pair_index as int,
            );
        }
        let ghost grown = attempts_model(
            *config,
            pairs@,
            probe_minutiae@,
            gallery_minutiae@,
            state@,
            start_pair_index as int,
        );
        let mut more: bool = true;
        while more
            invariant
                config.wf(),
                state.wf(),
                pairs.wf(),
                pairs@.wf(),
                pairs@.prepared,
                pairs_within(pairs@.pairs, probe_minutiae@, gallery_minutiae@),
                total_points(pairs@.pairs, pairs@.pairs.len() as int) <= u32::MAX,
                start_pair_index < pairs@.pairs.len(),
                engine_wf(*config, pairs@, state@),
                more ==> state@.clusters.len() < config.max_number_of_clusters,
                grown == if more {
                    attempts_model(
                        *config,
                        pairs@,
                        probe_minutiae@,
                        gallery_minutiae@,
                        state@,
                        start_pair_index as int,
                    )
                } else {
                    state@
                },
            decreases
                    if more {
                        attempts_left(*config, state@.growth.groups) + 1
                    } else {
                        0
                    },
        {
            let ghost engine = state@;
            proof {
                lemma_create_model(
                    *config,
                    pairs@,
                    probe_minutiae@,
                    gallery_minutiae@,
                    engine,
                    start_pair_index as int,
                );
                lemma_padded_extended(
                    engine.growth.groups,
                    create_model(
                        *config,
                        pairs@,
                        probe_minutiae@,
                        gallery_minutiae@,
                        engine,
                        start_pair_index as int,
                    ).growth.groups,
                    group_bound(*config),
                );
            }
            maybe_create_cluster(
                config,
                probe_minutiae,
                gallery_minutiae,
                pairs,
                start_pair_index as u32,
                state,
            );
            let ghost created = state@;
            proof {
                lemma_moved_on(*config, pairs@, created);
            }
            if state.clusters.len() > config.max_number_of_clusters - 1 {
                more = false;
            } else if !find_next_not_conflicting_associations(
                config,
                &mut state.groups,
                &mut state.associator,
            ) {
                // no more clusters can be created
                proof {
                    assert(state@ == moved_on(*config, created));
                }
                more = false;
            } else {
                proof {
                    assert(state@ == moved_on(*config, created));
                }
            }
        }
        if state.clusters.len() > config.max_number_of_clusters - 1 {
            full = true;
        } else {
            let ghost built = state@;
            state.associator.clear_by_probe(start_pair.probe_k);
            proof {
                assert(state@ == unseeded(built, start_pair));
                lemma_clear_by_probe_wf(built.growth.table, start_pair.probe_k);
            }
            start_pair_index = start_pair_index + 1;
        }
    }
}

/// Names the last of the clusters that have the most points together with
/// the clusters they are linked with, followed by those clusters.
pub fn list_richest_cluster(clusters: &Clusters) -> (list: Vec<u32>)
    requires
        clusters.wf(),
        clusters@.len() <= u32::MAX,
    ensures
        list@ == richest_with_linked(clusters@),
{
    let mut list: Vec<u32> = Vec::new();
    let n: usize = clusters.similar.len();
    if n == 0 {
        return list;
    }
    let mut richest: usize = 0;
    let mut index: usize = 1;
    while index < n
        invariant
            1 <= index <= n,
            n == clusters@.len(),
            n == clusters.similar@.len(),
            richest < index,
            richest == richest_cluster(clusters@, index as int),
        decreases n - index,
    {
        assert(clusters@[index as int].points_including_compatible_clusters
            == clusters.similar@[index as int].points_including_compatible_clusters);
        assert(clusters@[richest as int].points_including_compatible_clusters
            == clusters.similar@[richest as int].points_including_compatible_clusters);
        // of clusters with equal points the last one is taken
        if clusters.similar[index].points_including_compatible_clusters
            >= clusters.similar[richest].points_including_compatible_clusters {
            richest = index;
        }
        index = index + 1;
    }
    list.push(richest as u32);
    let linked: &Vec<u32> = &clusters.similar[richest].compatible_clusters;
    assert(linked@ == clusters@[richest as int].compatible_clusters);
    let count: usize = linked.len();
    let mut place: usize = 0;
    while place < count
        invariant
            place <= count,
            count == linked@.len(),
            list@ == seq![richest as u32] + linked@.take(place as int),
        decreases count - place,
    {
        list.push(linked[place]);
        place = place + 1;
        assert(list@ =~= seq![richest as u32] + linked@.take(place as int));
    }
    assert(linked@.take(count as int) =~= linked@);
    list
}

/// Compares two prints through the pairs of their edges: counts the points
/// of the best combination of compatible clusters of pairs.
///
/// Fails where either print has fewer than ten minutiae, and then leaves the
/// engine as it is. Otherwise the engine is emptied first and holds the
/// clusters of this comparison afterwards: what it held before has no part
/// in the outcome, so the same arguments give the same outcome with every
/// engine. The list names the clusters that those of the best combination
/// are linked with. Where the score is below the threshold, it names instead
/// the last of the clusters that have the most points together with their
/// linked clusters, followed by those; it is empty only without clusters.
pub fn match_score(
    config: &Config,
    pairs: &PairHolder,
    probe_minutiae: &[Minutia],
    gallery_minutiae: &[Minutia],
    format: Format,
    state: &mut BozorthState,
) -> (outcome: Result<(u32, Vec<u32>), ()>)
    requires
        config.wf(),
        old(state).wf(),
        pairs.wf(),
        pairs@.prepared,
        pairs_within(pairs@.pairs, probe_minutiae@, gallery_minutiae@),
        total_points(pairs@.pairs, pairs@.pairs.len() as int) * config.max_number_of_clusters
            <= u32::MAX,
    ensures
        final(state).wf(),
        match outcome {
            Ok((score, clusters)) => {
                &&& match_model(*config, pairs@, probe_minutiae@, gallery_minutiae@, format)
                    == Ok::<(u32, Seq<u32>), ()>((score, clusters@))
                &&& final(state)@.clusters == matched_clusters(
                    *config,
                    pairs@,
                    probe_minutiae@,
                    gallery_minutiae@,
                    format,
                )
            },
            Err(_) => {
                &&& match_model(*config, pairs@, probe_minutiae@, gallery_minutiae@, format)
                    == Err::<(u32, Seq<u32>), ()>(())
                &&& final(state)@ == old(state)@
            },
        },
{
    if probe_minutiae.len() < MINIMAL_NUMBER_OF_MINUTIA || gallery_minutiae.len()
        < MINIMAL_NUMBER_OF_MINUTIA {
        return Err(());
    }
    state.clear();
    let ghost points = total_points(pairs@.pairs, pairs@.pairs.len() as int);
    proof {
        lemma_total_points_nonnegative(pairs@.pairs, pairs@.pairs.len() as int);
        assert(points <= u32::MAX) by (nonlinear_arith)
            requires
                points * config.max_number_of_clusters <= u32::MAX,
                config.max_number_of_clusters >= 1,
                points >= 0,
        ;
        assert(state@ == Engine { clusters: Seq::empty(), growth: Growth::cleared() });
        assert(Growth::cleared().table.wf());
    }
    grow_clusters(config, pairs, probe_minutiae, gallery_minutiae, state);
    let ghost grown = state@.clusters;
    proof {
        lemma_points_from_bound(grown, grown.len() as int, points);
        assert(grown.len() * points <= u32::MAX) by (nonlinear_arith)
            requires
                points * config.max_number_of_clusters <= u32::MAX,
                0 <= grown.len() <= config.max_number_of_clusters,
                points >= 0,
        ;
        lemma_pairwise_model(*config, grown, format);
    }
    find_compatible_disjoint_clusters_and_accumulate_points(config, &mut state.clusters, format);
    let first: (u32, Vec<u32>) = combine_clusters(&state.clusters, false);
    if first.0 < config.score_threshold {
        Ok((first.0, list_richest_cluster(&state.clusters)))
    } else {
        Ok(combine_clusters(&state.clusters, true))
    }
}

/// A selection without a pair twice is no longer than the list of pairs.
pub proof fn lemma_selection_short(pairs: Seq<Pair>, selected: Seq<u32>)
    requires
        selection_within(selected, pairs),
        selected.no_duplicates(),
    ensures
        selected.len() <= pairs.len(),
{
    let numbers = Seq::new(selected.len(), |k: int| selected[k] as int);
    assert(numbers.no_duplicates());
    numbers.unique_seq_to_set();
    let range = vstd::set_lib::set_int_range(0, pairs.len() as int);
    vstd::set_lib::lemma_int_range(0, pairs.len() as int);
    assert forall|x: int| numbers.to_set().contains(x) implies range.contains(x) by {
        let k = choose|k: int| 0 <= k < numbers.len() && numbers[k] == x;
        assert(selected[k] < pairs.len());
    }
    vstd::set_lib::lemma_len_subset(numbers.to_set(), range);
}

} // verus!
