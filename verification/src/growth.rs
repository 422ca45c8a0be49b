//! What happens while one cluster grows: the steps of the traversal that
//! gathers its pairs, as functions of what the engine holds.

use vstd::prelude::*;
use crate::assigner::{
    cluster_of, count_other, lemma_count_other_update, ClusterAssigner, MARKER_UNASSIGNED,
};
use crate::associations::{lemma_count_zero_update, AssociationTable};
use crate::consts::{Config, MAX_NUMBER_OF_PAIRS};
use crate::groups::{
    find_group, groups_wf, lemma_clear_by_probe_wf, lemma_find_group, merge_model, GroupView,
};
use crate::pair_holder::{
    found_valid, lemma_find_by_first_valid, lemma_find_by_second_valid, lemma_last_end_bounds,
    slot_of, Found, PairIndex,
};
use crate::types::{Endpoint, FingerprintKind, Pair};

verus! {


/// What changes while one cluster grows: the links between the prints, the
/// cluster of each pair, the groups of rival partners, the pairs selected
/// for the cluster, and the linked endpoints whose neighbours are still to
/// be looked at.
pub struct Growth {
    pub table: AssociationTable,
    pub assigner: Seq<u32>,
    pub groups: Seq<GroupView>,
    pub selected: Seq<u32>,
    pub to_visit: Seq<(Endpoint, Endpoint)>,
}

impl Growth {
    /// The table and the groups are well formed, the assigner has a slot for every
    /// pair, and the endpoints of the worklist are indices.
    pub open spec fn wf(self) -> bool {
        &&& self.table.wf()
        &&& self.assigner.len() == MAX_NUMBER_OF_PAIRS
        &&& groups_wf(self.groups)
        &&& forall|k: int|
            0 <= k < self.to_visit.len() ==> (#[trigger] self.to_visit[k]).0.wf()
                && self.to_visit[k].1.wf()
    }

    /// The growth of an engine that holds nothing.
    pub open spec fn cleared() -> Growth {
        Growth {
            table: AssociationTable::empty(),
            assigner: ClusterAssigner::spec_empty(),
            groups: Seq::empty(),
            selected: Seq::empty(),
            to_visit: Seq::empty(),
        }
    }

    /// Takes the pair into the cluster.
    pub open spec fn record(self, cluster: u32, pair_index: u32) -> Growth {
        Growth {
            selected: self.selected.push(pair_index),
            assigner: self.assigner.update(pair_index as int, (cluster + 1) as u32),
            ..self
        }
    }

    /// Whether no entry of the worklist has a probe endpoint with the number
    /// `pair_index`.
    pub open spec fn no_entry_numbered(self, pair_index: u32) -> bool {
        forall|k: int|
            0 <= k < self.to_visit.len() ==> (#[trigger] self.to_visit[k]).0 != Endpoint(pair_index)
    }

    /// Every selected pair is one of the first `limit` pairs and belongs to
    /// `cluster` by the assigner, and none is selected twice.
    pub open spec fn selection_owned(self, cluster: u32, limit: int) -> bool {
        &&& forall|k: int|
            0 <= k < self.selected.len() ==> (#[trigger] self.selected[k]) < limit
                && self.assigner[self.selected[k] as int] == cluster + 1
        &&& self.selected.no_duplicates()
    }

    /// The length of the worklist and a bound on the entries that it can
    /// still take, together.
    pub open spec fn slack(self, cluster: u32) -> int {
        (self.table.free_probes() + count_other(self.assigner, (cluster + 1) as u32)
            + self.to_visit.len()) as int
    }
}

/// The most groups that cluster growth ever holds.
pub open spec fn group_bound(config: Config) -> int {
    if config.strict_mode {
        config.max_number_of_groups + 1
    } else {
        config.max_number_of_groups as int
    }
}

/// The growth after the pair at `pair_index` was reached through its
/// endpoints `probe` and `gallery`.
///
/// Where neither endpoint is linked: the pair is taken into the cluster
/// unless it belongs to it already, the endpoints are linked, and they join
/// the worklist. Where the probe endpoint is linked to this gallery endpoint
/// and the gallery endpoint is linked too: a pair of the cluster is left
/// alone; another is taken into the cluster, and in strict mode the
/// endpoints join the worklist unless an entry has a probe endpoint with the
/// pair's own number. In every other case the endpoints clash with a link
/// that exists: in strict mode nothing happens once the most groups allowed
/// exist; otherwise each side that is linked gets the rival entered into its
/// group.
pub open spec fn assign_model(
    config: Config,
    growth: Growth,
    cluster: u32,
    pair_index: u32,
    probe: Endpoint,
    gallery: Endpoint,
) -> Growth {
    let existing_gallery = growth.table.get_by_probe(probe);
    let existing_probe = growth.table.get_by_gallery(gallery);
    let known = cluster_of(growth.assigner, pair_index as int) == Some(cluster);
    if existing_gallery.is_none() && existing_probe.is_none() {
        let recorded = if known {
            growth
        } else {
            growth.record(cluster, pair_index)
        };
        Growth {
            table: recorded.table.associate(probe, gallery),
            to_visit: recorded.to_visit.push((probe, gallery)),
            ..recorded
        }
    } else if existing_gallery == Some(gallery) && existing_probe.is_some() {
        if known {
            growth
        } else {
            let recorded = growth.record(cluster, pair_index);
            if config.strict_mode && growth.no_entry_numbered(pair_index) {
                Growth { to_visit: recorded.to_visit.push((probe, gallery)), ..recorded }
            } else {
                recorded
            }
        }
    } else if config.strict_mode && growth.groups.len() >= config.max_number_of_groups {
        growth
    } else {
        let on_probe = match existing_gallery {
            Some(endpoint) => merge_model(
                config,
                growth.groups,
                FingerprintKind::Probe,
                probe,
                endpoint,
                gallery,
            ),
            None => growth.groups,
        };
        let on_gallery = match existing_probe {
            Some(endpoint) => merge_model(
                config,
                on_probe,
                FingerprintKind::Gallery,
                gallery,
                endpoint,
                probe,
            ),
            None => on_probe,
        };
        Growth { groups: on_gallery, ..growth }
    }
}

/// Whether `later` holds the groups of `earlier` with the same selections,
/// and behind them only groups that select their first candidate.
pub open spec fn groups_extended(earlier: Seq<GroupView>, later: Seq<GroupView>) -> bool {
    &&& earlier.len() <= later.len()
    &&& forall|i: int|
        0 <= i < earlier.len() ==> (#[trigger] later[i]).endpoint_index == earlier[i].endpoint_index
    &&& forall|i: int|
        earlier.len() <= i < later.len() ==> (#[trigger] later[i]).endpoint_index == 0
}

/// Entering a rival keeps the groups well formed, their selections as they
/// are, and their number within one more, and in relaxed mode within the most
/// groups allowed.
pub proof fn lemma_merge_model(
    config: Config,
    groups: Seq<GroupView>,
    source: FingerprintKind,
    endpoint: Endpoint,
    existing_endpoint: Endpoint,
    new_endpoint: Endpoint,
)
    requires
        groups_wf(groups),
        endpoint.wf(),
        existing_endpoint.wf(),
        new_endpoint.wf(),
    ensures
        groups_wf(merge_model(config, groups, source, endpoint, existing_endpoint, new_endpoint)),
        groups_extended(
            groups,
            merge_model(config, groups, source, endpoint, existing_endpoint, new_endpoint),
        ),
        merge_model(config, groups, source, endpoint, existing_endpoint, new_endpoint).len()
            <= groups.len() + 1,
        !config.strict_mode && groups.len() <= config.max_number_of_groups ==> merge_model(
            config,
            groups,
            source,
            endpoint,
            existing_endpoint,
            new_endpoint,
        ).len() <= config.max_number_of_groups,
{
    let merged = merge_model(config, groups, source, endpoint, existing_endpoint, new_endpoint);
    let place = find_group(groups, source, endpoint, 0);
    lemma_find_group(groups, source, endpoint, 0);
    if !config.strict_mode && groups.len() == config.max_number_of_groups {
    } else if place < groups.len() {
        let group = groups[place];
        assert(group.wf());
        if !group.matching_endpoints.contains(new_endpoint) {
            let grown = GroupView {
                matching_endpoints: group.matching_endpoints.push(new_endpoint),
                ..group
            };
            assert forall|j: int, k: int| 1 <= j < k < grown.matching_endpoints.len() implies
                #[trigger] grown.matching_endpoints[j] != #[trigger] grown.matching_endpoints[k] by {
                if k == group.matching_endpoints.len() {
                    assert(group.matching_endpoints[j] != new_endpoint);
                }
            }
            assert(grown.wf());
            assert forall|i: int| 0 <= i < merged.len() implies (#[trigger] merged[i]).wf() by {
                if i != place {
                    assert(groups[i].wf());
                }
            }
        }
    } else {
        let added = merged[groups.len() as int];
        assert(added.matching_endpoints =~= seq![existing_endpoint, new_endpoint]);
        assert(added.wf());
        assert forall|i: int| 0 <= i < merged.len() implies (#[trigger] merged[i]).wf() by {
            if i < groups.len() {
                assert(groups[i].wf());
            }
        }
    }
}

/// One step of growth keeps the growth well formed, never lengthens the
/// worklist by more than it uses up of the slack, keeps what the worklist
/// held, keeps the selection owned by the cluster, and extends the groups
/// within their bound.
pub proof fn lemma_assign_model(
    config: Config,
    growth: Growth,
    cluster: u32,
    pair_index: u32,
    probe: Endpoint,
    gallery: Endpoint,
    limit: int,
)
    requires
        growth.wf(),
        pair_index < limit <= MAX_NUMBER_OF_PAIRS,
        cluster < MARKER_UNASSIGNED - 1,
        probe.wf(),
        gallery.wf(),
    ensures
        grows_from(
            config,
            cluster,
            limit,
            growth,
            assign_model(config, growth, cluster, pair_index, probe, gallery),
        ),
{
    let after = assign_model(config, growth, cluster, pair_index, probe, gallery);
    let existing_gallery = growth.table.get_by_probe(probe);
    let existing_probe = growth.table.get_by_gallery(gallery);
    let known = cluster_of(growth.assigner, pair_index as int) == Some(cluster);
    let mark = (cluster + 1) as u32;
    lemma_count_other_update(growth.assigner, mark, pair_index as int, mark);
    lemma_count_zero_update(growth.table.gallery_by_probe, probe.index(), (gallery.0 + 1) as u8);
    let recorded = growth.record(cluster, pair_index);
    assert(growth.to_visit =~= growth.to_visit.subrange(0, growth.to_visit.len() as int));
    assert(growth.to_visit =~= growth.to_visit.push((probe, gallery)).subrange(
        0,
        growth.to_visit.len() as int,
    ));
    if growth.selection_owned(cluster, limit) && !known {
        assert forall|k: int| 0 <= k < recorded.selected.len() implies (
        #[trigger] recorded.selected[k]) < limit
            && recorded.assigner[recorded.selected[k] as int] == cluster + 1 by {
            if k < growth.selected.len() {
                assert(growth.selected[k] < limit);
            }
        }
        assert forall|i: int, j: int|
            0 <= i < recorded.selected.len() && 0 <= j < recorded.selected.len() && i
                != j implies recorded.selected[i] != recorded.selected[j] by {
            if i < growth.selected.len() {
                assert(growth.assigner[growth.selected[i] as int] == cluster + 1);
            }
            if j < growth.selected.len() {
                assert(growth.assigner[growth.selected[j] as int] == cluster + 1);
            }
        }
    }
    if existing_gallery.is_none() && existing_probe.is_none() {
    } else if existing_gallery == Some(gallery) && existing_probe.is_some() {
    } else if config.strict_mode && growth.groups.len() >= config.max_number_of_groups {
    } else {
        let on_probe = match existing_gallery {
            Some(endpoint) => {
                lemma_merge_model(
                    config,
                    growth.groups,
                    FingerprintKind::Probe,
                    probe,
                    endpoint,
                    gallery,
                );
                merge_model(config, growth.groups, FingerprintKind::Probe, probe, endpoint, gallery)
            },
            None => growth.groups,
        };
        match existing_probe {
            Some(endpoint) => {
                lemma_merge_model(
                    config,
                    on_probe,
                    FingerprintKind::Gallery,
                    gallery,
                    endpoint,
                    probe,
                );
            },
            None => {},
        };
    }
}

/// Whether `later` can come of `earlier` while the cluster grows among the
/// first `limit` pairs: it is well formed, its worklist holds what the
/// earlier one held and is longer by no more than the slack has shrunk, its
/// selection is owned by the cluster if the earlier one was, and its groups
/// extend the earlier ones within their bound.
pub open spec fn grows_from(
    config: Config,
    cluster: u32,
    limit: int,
    earlier: Growth,
    later: Growth,
) -> bool {
    &&& later.wf()
    &&& later.slack(cluster) <= earlier.slack(cluster)
    &&& earlier.to_visit.is_prefix_of(later.to_visit)
    &&& earlier.selection_owned(cluster, limit) ==> later.selection_owned(cluster, limit)
    &&& groups_extended(earlier.groups, later.groups)
    &&& earlier.groups.len() <= group_bound(config) ==> later.groups.len() <= group_bound(config)
}

/// Growth in two stretches is growth.
proof fn lemma_grows_transitive(
    config: Config,
    cluster: u32,
    limit: int,
    first: Growth,
    second: Growth,
    third: Growth,
)
    requires
        grows_from(config, cluster, limit, first, second),
        grows_from(config, cluster, limit, second, third),
    ensures
        grows_from(config, cluster, limit, first, third),
{
    assert(first.to_visit =~= third.to_visit.subrange(0, first.to_visit.len() as int)) by {
        assert(first.to_visit == second.to_visit.subrange(0, first.to_visit.len() as int));
        assert(second.to_visit == third.to_visit.subrange(0, second.to_visit.len() as int));
    }
    assert forall|i: int| 0 <= i < first.groups.len() implies (
    #[trigger] third.groups[i]).endpoint_index == first.groups[i].endpoint_index by {
        assert(second.groups[i].endpoint_index == first.groups[i].endpoint_index);
    }
    assert forall|i: int| first.groups.len() <= i < third.groups.len() implies (
    #[trigger] third.groups[i]).endpoint_index == 0 by {
        if i < second.groups.len() {
            assert(second.groups[i].endpoint_index == 0);
        }
    }
}

/// Whether a pair reached through `probe` and `gallery` is passed over
/// because it shares an endpoint with the pair to avoid.
pub open spec fn avoided(avoid: Option<(Endpoint, Endpoint)>, probe: Endpoint, gallery: Endpoint) -> bool {
    match avoid {
        Some((avoided_probe, avoided_gallery)) => probe == avoided_probe || gallery
            == avoided_gallery,
        None => false,
    }
}

/// The growth after the pairs found were handled one after the other, those
/// to avoid passed over.
pub open spec fn assign_items(
    config: Config,
    growth: Growth,
    cluster: u32,
    items: Seq<Found>,
    avoid: Option<(Endpoint, Endpoint)>,
) -> Growth
    decreases items.len(),
{
    if items.len() == 0 {
        growth
    } else {
        let earlier = assign_items(config, growth, cluster, items.drop_last(), avoid);
        let (place, probe, gallery) = items.last();
        if avoided(avoid, probe, gallery) {
            earlier
        } else {
            assign_model(config, earlier, cluster, place as u32, probe, gallery)
        }
    }
}

/// Handling the pairs found lets the cluster grow as one step of growth does.
pub proof fn lemma_assign_items(
    config: Config,
    growth: Growth,
    cluster: u32,
    items: Seq<Found>,
    avoid: Option<(Endpoint, Endpoint)>,
    index: PairIndex,
)
    requires
        growth.wf(),
        cluster < MARKER_UNASSIGNED - 1,
        index.pairs.len() <= MAX_NUMBER_OF_PAIRS,
        found_valid(index, items),
    ensures
        grows_from(
            config,
            cluster,
            index.pairs.len() as int,
            growth,
            assign_items(config, growth, cluster, items, avoid),
        ),
    decreases items.len(),
{
    if items.len() > 0 {
        let earlier = assign_items(config, growth, cluster, items.drop_last(), avoid);
        assert forall|t: int| 0 <= t < items.drop_last().len() implies (
        #[trigger] items.drop_last()[t]).0 < index.pairs.len() && items.drop_last()[t].1.wf()
            && items.drop_last()[t].2.wf() by {
            assert(items[t].1.wf());
        }
        lemma_assign_items(config, growth, cluster, items.drop_last(), avoid, index);
        let (place, probe, gallery) = items.last();
        assert(items[items.len() - 1].1.wf());
        if !avoided(avoid, probe, gallery) {
            lemma_assign_model(
                config,
                earlier,
                cluster,
                place as u32,
                probe,
                gallery,
                index.pairs.len() as int,
            );
            lemma_grows_transitive(
                config,
                cluster,
                index.pairs.len() as int,
                growth,
                earlier,
                assign_model(config, earlier, cluster, place as u32, probe, gallery),
            );
        }
    } else {
        assert(growth.to_visit =~= growth.to_visit.subrange(0, growth.to_visit.len() as int));
    }
}

/// The growth after the neighbours of every worklist entry from `cursor`
/// on were handled, entries that join the worklist on the way included.
///
/// For each entry first the pairs that end in its endpoints are handled,
/// through their first endpoints and but for those that share an endpoint
/// with the seed; then the pairs that start in its endpoints, through their
/// second endpoints. Only pairs from `next_not_connected` on are looked at.
pub open spec fn visit_model(
    config: Config,
    index: PairIndex,
    growth: Growth,
    cluster: u32,
    seed: Pair,
    next_not_connected: int,
    cursor: int,
) -> Growth
    decreases growth.slack(cluster) - cursor,
    when growth.wf() && index.wf() && index.prepared && cluster < MARKER_UNASSIGNED - 1 && 0
        <= next_not_connected && 0 <= cursor <= growth.to_visit.len()
{
    if cursor >= growth.to_visit.len() {
        growth
    } else {
        let (probe, gallery) = growth.to_visit[cursor];
        let ending = index.find_by_second(next_not_connected, probe, gallery);
        let first = assign_items(
            config,
            growth,
            cluster,
            ending,
            Some((seed.probe_k, seed.gallery_k)),
        );
        let starting = index.find_by_first(next_not_connected, probe, gallery);
        let second = assign_items(config, first, cluster, starting, None);
        proof {
            lemma_visit_step(config, index, growth, cluster, seed, next_not_connected, cursor);
        }
        visit_model(config, index, second, cluster, seed, next_not_connected, cursor + 1)
    }
}

/// The growth after the neighbours of the worklist entry at `cursor` were
/// handled.
pub open spec fn visit_step(
    config: Config,
    index: PairIndex,
    growth: Growth,
    cluster: u32,
    seed: Pair,
    next_not_connected: int,
    cursor: int,
) -> Growth {
    let (probe, gallery) = growth.to_visit[cursor];
    let first = assign_items(
        config,
        growth,
        cluster,
        index.find_by_second(next_not_connected, probe, gallery),
        Some((seed.probe_k, seed.gallery_k)),
    );
    assign_items(
        config,
        first,
        cluster,
        index.find_by_first(next_not_connected, probe, gallery),
        None,
    )
}

/// Handling the neighbours of one worklist entry lets the cluster grow as one
/// step of growth does.
pub proof fn lemma_visit_step(
    config: Config,
    index: PairIndex,
    growth: Growth,
    cluster: u32,
    seed: Pair,
    next_not_connected: int,
    cursor: int,
)
    requires
        growth.wf(),
        index.wf(),
        index.prepared,
        cluster < MARKER_UNASSIGNED - 1,
        0 <= next_not_connected,
        0 <= cursor < growth.to_visit.len(),
    ensures
        grows_from(
            config,
            cluster,
            index.pairs.len() as int,
            growth,
            visit_step(config, index, growth, cluster, seed, next_not_connected, cursor),
        ),
{
    let (probe, gallery) = growth.to_visit[cursor];
    assert(growth.to_visit[cursor].0.wf());
    let ending = index.find_by_second(next_not_connected, probe, gallery);
    lemma_find_by_second_valid(index, next_not_connected, probe, gallery);
    let avoid = Some((seed.probe_k, seed.gallery_k));
    let first = assign_items(config, growth, cluster, ending, avoid);
    lemma_assign_items(config, growth, cluster, ending, avoid, index);
    let starting = index.find_by_first(next_not_connected, probe, gallery);
    lemma_find_by_first_valid(index, next_not_connected, probe, gallery);
    lemma_assign_items(config, first, cluster, starting, None, index);
    lemma_grows_transitive(
        config,
        cluster,
        index.pairs.len() as int,
        growth,
        first,
        assign_items(config, first, cluster, starting, None),
    );
}

/// Working off the worklist lets the cluster grow as one step of growth does.
pub proof fn lemma_visit_model(
    config: Config,
    index: PairIndex,
    growth: Growth,
    cluster: u32,
    seed: Pair,
    next_not_connected: int,
    cursor: int,
)
    requires
        growth.wf(),
        index.wf(),
        index.prepared,
        cluster < MARKER_UNASSIGNED - 1,
        0 <= next_not_connected,
        0 <= cursor <= growth.to_visit.len(),
    ensures
        grows_from(
            config,
            cluster,
            index.pairs.len() as int,
            growth,
            visit_model(config, index, growth, cluster, seed, next_not_connected, cursor),
        ),
    decreases growth.slack(cluster) - cursor,
{
    if cursor < growth.to_visit.len() {
        let second = visit_step(config, index, growth, cluster, seed, next_not_connected, cursor);
        lemma_visit_step(config, index, growth, cluster, seed, next_not_connected, cursor);
        lemma_visit_model(config, index, second, cluster, seed, next_not_connected, cursor + 1);
        lemma_grows_transitive(
            config,
            cluster,
            index.pairs.len() as int,
            growth,
            second,
            visit_model(config, index, second, cluster, seed, next_not_connected, cursor + 1),
        );
    } else {
        assert(growth.to_visit =~= growth.to_visit.subrange(0, growth.to_visit.len() as int));
    }
}

/// The table after the probe endpoints of the first `n` worklist entries
/// were unlinked, one after the other.
pub open spec fn unlinked(
    table: AssociationTable,
    to_visit: Seq<(Endpoint, Endpoint)>,
    n: int,
) -> AssociationTable
    decreases n,
{
    if n <= 0 {
        table
    } else {
        unlinked(table, to_visit, n - 1).clear_by_probe(to_visit[n - 1].0)
    }
}

/// Unlinking the endpoints of the worklist keeps the table well formed.
proof fn lemma_unlinked_wf(table: AssociationTable, to_visit: Seq<(Endpoint, Endpoint)>, n: int)
    requires
        table.wf(),
        0 <= n <= to_visit.len(),
        forall|k: int| 0 <= k < to_visit.len() ==> (#[trigger] to_visit[k]).0.wf(),
    ensures
        unlinked(table, to_visit, n).wf(),
    decreases n,
{
    if n > 0 {
        lemma_unlinked_wf(table, to_visit, n - 1);
        assert(to_visit[n - 1].0.wf());
        lemma_clear_by_probe_wf(unlinked(table, to_visit, n - 1), to_visit[n - 1].0);
    }
}

/// The growth after the traversal that starts at the pair `start_pair` and
/// gathers pairs for `cluster`.
///
/// The pairs from the seed on that share the seed's first endpoints are
/// handled first, through their second endpoints. Then the worklist is
/// worked off, with only the pairs behind those in view. At the end every
/// link that the worklist stands for is undone, so that of the links made
/// only those of the seed and of the groups remain.
pub open spec fn traverse_model(
    config: Config,
    index: PairIndex,
    growth: Growth,
    start_pair: int,
    cluster: u32,
) -> Growth {
    let seed = index.pairs[start_pair];
    let around = index.find_by_first(start_pair, seed.probe_k, seed.gallery_k);
    let next_not_connected = index.end_by_first(start_pair, seed.probe_k, seed.gallery_k);
    let begun = assign_items(
        config,
        Growth { to_visit: Seq::empty(), ..growth },
        cluster,
        around,
        None,
    );
    let grown = visit_model(config, index, begun, cluster, seed, next_not_connected, 0);
    Growth {
        table: unlinked(grown.table, grown.to_visit, grown.to_visit.len() as int),
        to_visit: Seq::empty(),
        ..grown
    }
}

/// The traversal leaves a growth that is well formed, with an empty worklist,
/// a selection owned by the cluster if it started empty, and groups that
/// extend the earlier ones within their bound.
pub proof fn lemma_traverse_model(
    config: Config,
    index: PairIndex,
    growth: Growth,
    start_pair: int,
    cluster: u32,
)
    requires
        growth.wf(),
        index.wf(),
        index.prepared,
        0 <= start_pair < index.pairs.len(),
        cluster < MARKER_UNASSIGNED - 1,
    ensures
        traverse_model(config, index, growth, start_pair, cluster).wf(),
        traverse_model(config, index, growth, start_pair, cluster).to_visit.len() == 0,
        growth.selected.len() == 0 ==> traverse_model(
            config,
            index,
            growth,
            start_pair,
            cluster,
        ).selection_owned(cluster, index.pairs.len() as int),
        groups_extended(
            growth.groups,
            traverse_model(config, index, growth, start_pair, cluster).groups,
        ),
        growth.groups.len() <= group_bound(config) ==> traverse_model(
            config,
            index,
            growth,
            start_pair,
            cluster,
        ).groups.len() <= group_bound(config),
{
    let seed = index.pairs[start_pair];
    assert(seed.wf());
    let around = index.find_by_first(start_pair, seed.probe_k, seed.gallery_k);
    let next_not_connected = index.end_by_first(start_pair, seed.probe_k, seed.gallery_k);
    let fresh = Growth { to_visit: Seq::empty(), ..growth };
    lemma_find_by_first_valid(index, start_pair, seed.probe_k, seed.gallery_k);
    lemma_assign_items(config, fresh, cluster, around, None, index);
    let begun = assign_items(config, fresh, cluster, around, None);
    lemma_last_end_bounds(index.first_slots(), slot_of(seed.probe_k, seed.gallery_k));
    lemma_visit_model(config, index, begun, cluster, seed, next_not_connected, 0);
    let grown = visit_model(config, index, begun, cluster, seed, next_not_connected, 0);
    lemma_grows_transitive(config, cluster, index.pairs.len() as int, fresh, begun, grown);
    lemma_unlinked_wf(grown.table, grown.to_visit, grown.to_visit.len() as int);
}

/// Whether both endpoints of every worklist entry are indices.
pub open spec fn worklist_wf(to_visit: Seq<(Endpoint, Endpoint)>) -> bool {
    forall|k: int| 0 <= k < to_visit.len() ==> (#[trigger] to_visit[k]).0.wf() && to_visit[k].1.wf()
}

} // verus!
