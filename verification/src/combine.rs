//! The search for the compatible clusters with the most points together.

use vstd::prelude::*;
use crate::clusters::{
    clusters_sound, lemma_compatible_later, lemma_points_from_split, linked_cluster,
    pairwise_model, points_from, points_of, ClusterView, Clusters,
};
use crate::consts::Config;
use crate::set_intersection::{
    collect_intersection, intersection_from, is_rising, lemma_intersection_complete,
    lemma_intersection_members,
};
use crate::types::Format;

verus! {

/// Whether every cluster is linked only with clusters behind it, in rising
/// order.
pub open spec fn clusters_linked(clusters: Seq<ClusterView>) -> bool {
    &&& clusters.len() <= 0x7fff_ffff
    &&& forall|c: int|
        0 <= c < clusters.len() ==> is_rising((#[trigger] clusters[c]).compatible_clusters)
    &&& forall|c: int, k: int|
        0 <= c < clusters.len() && 0 <= k < clusters[c].compatible_clusters.len() ==> c
            < #[trigger] clusters[c].compatible_clusters[k] < clusters.len()
}

/// Whether every member of `list` is a cluster behind `cluster`.
pub open spec fn all_behind(clusters: Seq<ClusterView>, cluster: int, list: Seq<u32>) -> bool {
    forall|k: int| 0 <= k < list.len() ==> cluster < #[trigger] list[k] < clusters.len()
}

/// The best combination found so far: its points, and the clusters that it
/// is made of, one linked with the next. Before any was found the points are
/// zero and there are no clusters.
pub struct Best {
    pub score: u32,
    pub path: Seq<u32>,
}

/// Whether the search can stand at `path` with `reachable` left to join and
/// the first `cursor` of them tried.
pub open spec fn search_wf(
    clusters: Seq<ClusterView>,
    path: Seq<u32>,
    reachable: Seq<u32>,
    cursor: int,
) -> bool {
    &&& clusters_linked(clusters)
    &&& path.len() > 0
    &&& path.last() < clusters.len()
    &&& all_behind(clusters, path.last() as int, reachable)
    &&& 0 <= cursor <= reachable.len()
}

/// The best combination after every combination that starts with `path` and
/// goes on with one of `reachable` from place `cursor` on was tried.
///
/// To go on with a cluster of `reachable`, that cluster joins the path, and
/// of `reachable` those remain that it is linked with. A path with nothing
/// left to join is a combination: its points are those of its clusters, and
/// it becomes the best one if it has more points than the best so far.
pub open spec fn explore(
    clusters: Seq<ClusterView>,
    path: Seq<u32>,
    reachable: Seq<u32>,
    cursor: int,
    best: Best,
) -> Best
    decreases clusters.len() - path.last(), reachable.len() - cursor,
    when search_wf(clusters, path, reachable, cursor)
{
    if cursor < reachable.len() {
        let next = reachable[cursor];
        let narrowed = intersection_from(
            reachable,
            clusters[next as int].compatible_clusters,
            0,
            0,
        );
        proof {
            lemma_narrowed(clusters, path, reachable, cursor);
        }
        let deeper = explore(clusters, path.push(next), narrowed, 0, best);
        explore(clusters, path, reachable, cursor + 1, deeper)
    } else if reachable.len() == 0 {
        let score = points_of(clusters, path);
        if score > best.score {
            Best { score: score as u32, path }
        } else {
            best
        }
    } else {
        best
    }
}

/// Going on with a reachable cluster leaves a search that is well formed.
pub proof fn lemma_narrowed(
    clusters: Seq<ClusterView>,
    path: Seq<u32>,
    reachable: Seq<u32>,
    cursor: int,
)
    requires
        search_wf(clusters, path, reachable, cursor),
        cursor < reachable.len(),
    ensures
        search_wf(
            clusters,
            path.push(reachable[cursor]),
            intersection_from(
                reachable,
                clusters[reachable[cursor] as int].compatible_clusters,
                0,
                0,
            ),
            0,
        ),
        path.last() < reachable[cursor],
{
    let next = reachable[cursor];
    let linked = clusters[next as int].compatible_clusters;
    let narrowed = intersection_from(reachable, linked, 0, 0);
    lemma_intersection_members(reachable, linked, 0, 0);
    assert forall|k: int| 0 <= k < narrowed.len() implies next < #[trigger] narrowed[k]
        < clusters.len() by {
        assert(linked.contains(narrowed[k]));
        let a = choose|a: int| 0 <= a < linked.len() && linked[a] == narrowed[k];
        assert(next < clusters[next as int].compatible_clusters[a] < clusters.len());
    }
}

/// The best combination after the clusters from `seed` on were tried as
/// first clusters, one after the other. A cluster whose points with all the
/// clusters it is linked with are no more than the best so far is passed.
pub open spec fn combine_from(clusters: Seq<ClusterView>, seed: int, best: Best) -> Best
    decreases clusters.len() - seed,
{
    if seed < 0 || seed >= clusters.len() {
        best
    } else {
        let cluster = clusters[seed];
        let after = if best.score >= cluster.points_including_compatible_clusters {
            best
        } else {
            explore(clusters, seq![seed as u32], cluster.compatible_clusters, 0, best)
        };
        combine_from(clusters, seed + 1, after)
    }
}

/// The place of the first member of `list` from `from` on that is no less
/// than `value`, or the length of the list.
pub open spec fn rising_place(list: Seq<u32>, value: u32, from: int) -> int
    decreases list.len() - from,
{
    if from < 0 || from >= list.len() {
        list.len() as int
    } else if list[from] >= value {
        from
    } else {
        rising_place(list, value, from + 1)
    }
}

/// The rising list with `value` entered at its place unless it is there.
pub open spec fn with_member(list: Seq<u32>, value: u32) -> Seq<u32> {
    let place = rising_place(list, value, 0);
    if place < list.len() && list[place] == value {
        list
    } else {
        list.insert(place, value)
    }
}

/// The rising list with the first `n` of `members` entered.
pub open spec fn with_members(list: Seq<u32>, members: Seq<u32>, n: int) -> Seq<u32>
    decreases n,
{
    if n <= 0 {
        list
    } else {
        with_member(with_members(list, members, n - 1), members[n - 1])
    }
}

/// The clusters that the first `n` clusters of `path` are linked with, each
/// once, in rising order.
pub open spec fn collection_of(clusters: Seq<ClusterView>, path: Seq<u32>, n: int) -> Seq<u32>
    decreases n,
{
    if n <= 0 {
        Seq::empty()
    } else {
        let linked = clusters[path[n - 1] as int].compatible_clusters;
        with_members(collection_of(clusters, path, n - 1), linked, linked.len() as int)
    }
}

/// The place found lies behind every smaller member and at a member that is no
/// smaller, if at any.
proof fn lemma_rising_place(list: Seq<u32>, value: u32, from: int)
    requires
        0 <= from <= list.len(),
    ensures
        from <= rising_place(list, value, from) <= list.len(),
        forall|k: int| from <= k < rising_place(list, value, from) ==> list[k] < value,
        rising_place(list, value, from) < list.len() ==> list[rising_place(list, value, from)]
            >= value,
    decreases list.len() - from,
{
    if from < list.len() && list[from] < value {
        lemma_rising_place(list, value, from + 1);
    }
}

/// Entering a member keeps a rising list rising, and the list then holds the
/// member and what it held before, and nothing else.
pub proof fn lemma_with_member(list: Seq<u32>, value: u32)
    requires
        is_rising(list),
    ensures
        is_rising(with_member(list, value)),
        forall|x: u32|
            #![trigger with_member(list, value).contains(x)]
            #![trigger list.contains(x)]
            with_member(list, value).contains(x) <==> (x == value || list.contains(x)),
{
    let place = rising_place(list, value, 0);
    lemma_rising_place(list, value, 0);
    let grown = with_member(list, value);
    if place < list.len() && list[place] == value {
        assert(list.contains(value));
    } else {
        assert forall|i: int, j: int| 0 <= i < j < grown.len() implies grown[i] < grown[j] by {
            if j < place {
            } else if j == place {
            } else if i < place {
                assert(list[i] < value);
                if j - 1 >= place {
                    assert(list[place] <= list[j - 1] || place == j - 1);
                }
            } else if i == place {
                assert(list[place] <= list[j - 1] || place == j - 1);
            } else {
            }
        }
        assert forall|x: u32|
            #![trigger grown.contains(x)]
            #![trigger list.contains(x)]
            grown.contains(x) <==> (x == value || list.contains(x)) by {
            if grown.contains(x) {
                let k = choose|k: int| 0 <= k < grown.len() && grown[k] == x;
                if k < place {
                    assert(list[k] == x);
                } else if k > place {
                    assert(list[k - 1] == x);
                }
            }
            if x == value {
                assert(grown[place] == value);
            }
            if list.contains(x) {
                let k = choose|k: int| 0 <= k < list.len() && list[k] == x;
                if k < place {
                    assert(grown[k] == x);
                } else {
                    assert(grown[k + 1] == x);
                }
            }
        }
    }
}

/// Entering members keeps a rising list rising, and the list then holds them
/// and what it held before, and nothing else.
proof fn lemma_with_members(list: Seq<u32>, members: Seq<u32>, n: int)
    requires
        is_rising(list),
        0 <= n <= members.len(),
    ensures
        is_rising(with_members(list, members, n)),
        forall|x: u32|
            #![trigger with_members(list, members, n).contains(x)]
            with_members(list, members, n).contains(x) <==> (list.contains(x) || exists|k: int|
                0 <= k < n && members[k] == x),
    decreases n,
{
    if n > 0 {
        lemma_with_members(list, members, n - 1);
        let earlier = with_members(list, members, n - 1);
        lemma_with_member(earlier, members[n - 1]);
        let grown = with_members(list, members, n);
        assert(grown == with_member(earlier, members[n - 1]));
        assert forall|x: u32| #![trigger grown.contains(x)] grown.contains(x) <==> (list.contains(
            x,
        ) || exists|k: int| 0 <= k < n && members[k] == x) by {
            assert(with_member(earlier, members[n - 1]).contains(x) <==> (x == members[n - 1]
                || earlier.contains(x)));
            if grown.contains(x) {
                if x == members[n - 1] {
                } else {
                    assert(earlier.contains(x));
                    if !list.contains(x) {
                        let k = choose|k: int| 0 <= k < n - 1 && members[k] == x;
                        assert(0 <= k < n && members[k] == x);
                    }
                }
            }
            if exists|k: int| 0 <= k < n && members[k] == x {
                let k = choose|k: int| 0 <= k < n && members[k] == x;
                if k < n - 1 {
                    assert(earlier.contains(x));
                }
            }
        }
    }
}

/// What is collected rises, and holds exactly the clusters that some cluster
/// of the path is linked with.
pub proof fn lemma_collection_of(clusters: Seq<ClusterView>, path: Seq<u32>, n: int)
    requires
        0 <= n <= path.len(),
    ensures
        is_rising(collection_of(clusters, path, n)),
        forall|x: u32|
            #![trigger collection_of(clusters, path, n).contains(x)]
            collection_of(clusters, path, n).contains(x) <==> exists|k: int|
                0 <= k < n && (#[trigger] clusters[path[k] as int]).compatible_clusters.contains(x),
    decreases n,
{
    if n > 0 {
        lemma_collection_of(clusters, path, n - 1);
        let earlier = collection_of(clusters, path, n - 1);
        let linked = clusters[path[n - 1] as int].compatible_clusters;
        lemma_with_members(earlier, linked, linked.len() as int);
        let all = collection_of(clusters, path, n);
        assert(all == with_members(earlier, linked, linked.len() as int));
        assert forall|x: u32| #![trigger all.contains(x)] all.contains(x) <==> exists|k: int|
            0 <= k < n && (#[trigger] clusters[path[k] as int]).compatible_clusters.contains(
                x,
            ) by {
            if all.contains(x) {
                if earlier.contains(x) {
                    let k = choose|k: int|
                        0 <= k < n - 1 && (
                        #[trigger] clusters[path[k] as int]).compatible_clusters.contains(x);
                    assert(0 <= k < n && clusters[path[k] as int].compatible_clusters.contains(x));
                } else {
                    let a = choose|a: int| 0 <= a < linked.len() && linked[a] == x;
                    assert(clusters[path[n - 1] as int].compatible_clusters.contains(x));
                }
            }
            if exists|k: int|
                0 <= k < n && (#[trigger] clusters[path[k] as int]).compatible_clusters.contains(
                    x,
                ) {
                let k = choose|k: int|
                    0 <= k < n && (
                    #[trigger] clusters[path[k] as int]).compatible_clusters.contains(x);
                if k < n - 1 {
                    assert(earlier.contains(x));
                } else {
                    let a = choose|a: int| 0 <= a < linked.len() && linked[a] == x;
                    assert(0 <= a < linked.len() && linked[a] == x);
                }
            }
        }
    } else {
        assert(is_rising(Seq::<u32>::empty()));
    }
}

/// The greatest sum of points of clusters that are compatible with each
/// other, and, where `collect` is set, the clusters that those of the best
/// combination are linked with.
pub open spec fn combine_model(clusters: Seq<ClusterView>, collect: bool) -> (u32, Seq<u32>) {
    let best = combine_from(clusters, 0, Best { score: 0, path: Seq::empty() });
    (
        best.score,
        if collect {
            collection_of(clusters, best.path, best.path.len() as int)
        } else {
            Seq::empty()
        },
    )
}

/// Whether a path goes from each cluster to one behind it, within the
/// clusters.
pub open spec fn path_wf(clusters: Seq<ClusterView>, path: Seq<u32>) -> bool {
    &&& is_rising(path)
    &&& forall|k: int| 0 <= k < path.len() ==> #[trigger] path[k] < clusters.len()
}

/// The clusters of a path have no more points together than all clusters up
/// to the last of the path.
pub proof fn lemma_path_points(clusters: Seq<ClusterView>, path: Seq<u32>)
    requires
        path_wf(clusters, path),
    ensures
        0 <= points_of(clusters, path),
        path.len() > 0 ==> points_of(clusters, path) <= points_from(
            clusters,
            0,
            path.last() + 1,
        ),
        points_of(clusters, path) <= points_from(clusters, 0, clusters.len() as int),
    decreases path.len(),
{
    if path.len() > 0 {
        let earlier = path.drop_last();
        assert forall|i: int, j: int| 0 <= i < j < earlier.len() implies earlier[i]
            < earlier[j] by {
            assert(path[i] < path[j]);
        }
        assert forall|k: int| 0 <= k < earlier.len() implies #[trigger] earlier[k]
            < clusters.len() by {
            assert(path[k] < clusters.len());
        }
        lemma_path_points(clusters, earlier);
        let last = path.last() as int;
        assert(path[path.len() - 1] < clusters.len());
        if earlier.len() > 0 {
            assert(path[path.len() - 2] < path[path.len() - 1]);
            lemma_points_from_split(clusters, 0, earlier.last() + 1, last);
        }
        lemma_points_from_split(clusters, 0, last, last + 1);
        lemma_points_from_split(clusters, 0, last + 1, clusters.len() as int);
    } else {
        lemma_points_from_split(clusters, 0, 0, clusters.len() as int);
    }
}

/// A path stays a path when a cluster behind its last one joins it.
pub proof fn lemma_path_push(clusters: Seq<ClusterView>, path: Seq<u32>, next: u32)
    requires
        path_wf(clusters, path),
        path.len() > 0,
        path.last() < next < clusters.len(),
    ensures
        path_wf(clusters, path.push(next)),
{
    let longer = path.push(next);
    assert forall|i: int, j: int| 0 <= i < j < longer.len() implies longer[i] < longer[j] by {
        if j == path.len() {
            if i < path.len() - 1 {
                assert(path[i] < path[path.len() - 1]);
            }
        }
    }
}

/// The search never lowers the best score, never raises it beyond the
/// points of all clusters, finds at least the points of its path where it
/// has anything to try, and leaves a best path that is a path.
pub proof fn lemma_explore(
    clusters: Seq<ClusterView>,
    path: Seq<u32>,
    reachable: Seq<u32>,
    cursor: int,
    best: Best,
)
    requires
        search_wf(clusters, path, reachable, cursor),
        path_wf(clusters, path),
        path_wf(clusters, best.path),
        best.score <= points_from(clusters, 0, clusters.len() as int) <= u32::MAX,
    ensures
        best.score <= explore(clusters, path, reachable, cursor, best).score <= points_from(
            clusters,
            0,
            clusters.len() as int,
        ),
        cursor < reachable.len() || reachable.len() == 0 ==> explore(
            clusters,
            path,
            reachable,
            cursor,
            best,
        ).score >= points_of(clusters, path),
        path_wf(clusters, explore(clusters, path, reachable, cursor, best).path),
    decreases clusters.len() - path.last(), reachable.len() - cursor,
{
    lemma_path_points(clusters, path);
    if cursor < reachable.len() {
        let next = reachable[cursor];
        let narrowed = intersection_from(
            reachable,
            clusters[next as int].compatible_clusters,
            0,
            0,
        );
        lemma_narrowed(clusters, path, reachable, cursor);
        lemma_path_push(clusters, path, next);
        lemma_explore(clusters, path.push(next), narrowed, 0, best);
        let deeper = explore(clusters, path.push(next), narrowed, 0, best);
        lemma_explore(clusters, path, reachable, cursor + 1, deeper);
        assert(path.push(next).drop_last() =~= path);
    }
}

/// The points of the best combination are at least those of every cluster
/// before `seed`, given that they were so before, and at most those of all
/// clusters.
pub proof fn lemma_combine_from(clusters: Seq<ClusterView>, seed: int, best: Best, single: int)
    requires
        clusters_linked(clusters),
        0 <= seed <= clusters.len(),
        0 <= single < clusters.len(),
        path_wf(clusters, best.path),
        best.score <= points_from(clusters, 0, clusters.len() as int) <= u32::MAX,
        forall|c: int|
            0 <= c < clusters.len() ==> (#[trigger] clusters[c]).points
                <= clusters[c].points_including_compatible_clusters,
        single < seed ==> best.score >= clusters[single].points,
    ensures
        best.score <= combine_from(clusters, seed, best).score <= points_from(
            clusters,
            0,
            clusters.len() as int,
        ),
        combine_from(clusters, seed, best).score >= clusters[single].points,
        path_wf(clusters, combine_from(clusters, seed, best).path),
    decreases clusters.len() - seed,
{
    if seed < clusters.len() {
        let cluster = clusters[seed];
        let start = seq![seed as u32];
        assert(path_wf(clusters, start));
        assert(all_behind(clusters, seed, cluster.compatible_clusters));
        if best.score >= cluster.points_including_compatible_clusters {
            lemma_combine_from(clusters, seed + 1, best, single);
        } else {
            lemma_explore(clusters, start, cluster.compatible_clusters, 0, best);
            let after = explore(clusters, start, cluster.compatible_clusters, 0, best);
            assert(start.drop_last() =~= Seq::<u32>::empty());
            assert(points_of(clusters, start.drop_last()) == 0);
            assert(start.last() == seed as u32);
            assert(points_of(clusters, start) == cluster.points);
            lemma_combine_from(clusters, seed + 1, after, single);
        }
    }
}

/// Whether the points of every cluster with those it is linked with are at
/// least its own.
pub open spec fn clusters_summed(clusters: Seq<ClusterView>) -> bool {
    forall|c: int|
        0 <= c < clusters.len() ==> (#[trigger] clusters[c]).points
            <= clusters[c].points_including_compatible_clusters
}

/// Clusters with the same points each have the same points together.
proof fn lemma_points_from_same(first: Seq<ClusterView>, second: Seq<ClusterView>, n: int)
    requires
        0 <= n <= first.len(),
        n <= second.len(),
        forall|c: int| 0 <= c < n ==> (#[trigger] first[c]).points == second[c].points,
    ensures
        points_from(first, 0, n) == points_from(second, 0, n),
    decreases n,
{
    if n > 0 {
        lemma_points_from_same(first, second, n - 1);
        assert(first[n - 1].points == second[n - 1].points);
    }
}

/// Clusters with the same points each give every list of them the same
/// points.
proof fn lemma_points_of_same(first: Seq<ClusterView>, second: Seq<ClusterView>, list: Seq<u32>)
    requires
        first.len() == second.len(),
        forall|c: int| 0 <= c < first.len() ==> (#[trigger] first[c]).points == second[c].points,
        forall|k: int| 0 <= k < list.len() ==> #[trigger] list[k] < first.len(),
    ensures
        points_of(first, list) == points_of(second, list),
    decreases list.len(),
{
    if list.len() > 0 {
        assert forall|k: int| 0 <= k < list.drop_last().len() implies #[trigger] list.drop_last()[k]
            < first.len() by {
            assert(list[k] < first.len());
        }
        lemma_points_of_same(first, second, list.drop_last());
        assert(list[list.len() - 1] < first.len());
        assert(first[list.last() as int].points == second[list.last() as int].points);
    }
}

/// Linking the clusters leaves their own points, averages and endpoints as
/// they are, links each only with clusters behind it, in rising order, and
/// gives each its own points and those of the clusters it is linked with.
pub proof fn lemma_pairwise_model(config: Config, clusters: Seq<ClusterView>, format: Format)
    requires
        clusters.len() <= 0x7fff_ffff,
        points_from(clusters, 0, clusters.len() as int) <= u32::MAX,
    ensures
        clusters_linked(pairwise_model(config, clusters, format)),
        clusters_summed(pairwise_model(config, clusters, format)),
        points_from(pairwise_model(config, clusters, format), 0, clusters.len() as int)
            == points_from(clusters, 0, clusters.len() as int),
        clusters_sound(clusters) ==> clusters_sound(pairwise_model(config, clusters, format)),
        clusters_totalled(pairwise_model(config, clusters, format)),
{
    let linked = pairwise_model(config, clusters, format);
    let n = clusters.len() as int;
    assert forall|c: int| 0 <= c < n implies (
    #[trigger] linked[c]).points_including_compatible_clusters == linked[c].points + points_of(
        linked,
        linked[c].compatible_clusters,
    ) by {
        lemma_compatible_later(config, clusters, format, c, n);
        lemma_points_from_split(clusters, 0, c + 1, n);
        lemma_points_from_split(clusters, 0, c, c + 1);
        assert(linked[c] == linked_cluster(config, clusters, format, c));
        lemma_points_of_same(linked, clusters, linked[c].compatible_clusters);
    }
    assert forall|c: int| 0 <= c < n implies {
        &&& is_rising((#[trigger] linked[c]).compatible_clusters)
        &&& all_behind(linked, c, linked[c].compatible_clusters)
        &&& linked[c].points <= linked[c].points_including_compatible_clusters
        &&& linked[c].points == clusters[c].points
    } by {
        lemma_compatible_later(config, clusters, format, c, n);
        lemma_points_from_split(clusters, 0, c + 1, n);
        lemma_points_from_split(clusters, 0, c, c + 1);
        assert(linked[c] == linked_cluster(config, clusters, format, c));
    }
    assert forall|c: int, k: int|
        0 <= c < linked.len() && 0 <= k < linked[c].compatible_clusters.len() implies c
        < #[trigger] linked[c].compatible_clusters[k] < linked.len() by {
        assert(all_behind(linked, c, linked[c].compatible_clusters));
    }
    lemma_points_from_same(linked, clusters, n);
    if clusters_sound(clusters) {
        assert forall|c: int| 0 <= c < linked.len() implies {
            &&& crate::math::is_angle((#[trigger] linked[c]).averages.delta_theta as int)
            &&& crate::clusters::within_bits(linked[c].probe_endpoints)
            &&& crate::clusters::within_bits(linked[c].gallery_endpoints)
        } by {
            assert(linked[c] == linked_cluster(config, clusters, format, c));
            assert(crate::math::is_angle(clusters[c].averages.delta_theta as int));
        }
    }
}

/// The best combination has at least as many points as any single cluster,
/// and no more than all clusters together.
pub proof fn lemma_combine_bounds(clusters: Seq<ClusterView>, collect: bool)
    requires
        clusters_linked(clusters),
        clusters_summed(clusters),
        points_from(clusters, 0, clusters.len() as int) <= u32::MAX,
    ensures
        forall|c: int|
            0 <= c < clusters.len() ==> combine_model(clusters, collect).0
                >= (#[trigger] clusters[c]).points,
        combine_model(clusters, collect).0 <= points_from(clusters, 0, clusters.len() as int),
{
    let start = Best { score: 0, path: Seq::empty() };
    lemma_points_from_split(clusters, 0, 0, clusters.len() as int);
    assert forall|c: int| 0 <= c < clusters.len() implies combine_model(clusters, collect).0
        >= (#[trigger] clusters[c]).points by {
        lemma_combine_from(clusters, 0, start, c);
    }
    if clusters.len() > 0 {
        lemma_combine_from(clusters, 0, start, 0);
    }
}

/// Whether the cluster `from` is linked with the cluster `to`.
pub open spec fn linked(clusters: Seq<ClusterView>, from: u32, to: u32) -> bool {
    clusters[from as int].compatible_clusters.contains(to)
}

/// Whether every cluster of the path is linked with the cluster `to`.
pub open spec fn linked_with_all(clusters: Seq<ClusterView>, path: Seq<u32>, to: u32) -> bool {
    forall|a: int| 0 <= a < path.len() ==> #[trigger] linked(clusters, path[a], to)
}

/// Whether the path is a chain: its clusters rise, and each is linked with
/// all that follow it.
pub open spec fn is_chain(clusters: Seq<ClusterView>, path: Seq<u32>) -> bool {
    &&& path_wf(clusters, path)
    &&& forall|a: int, b: int|
        0 <= a < b < path.len() ==> #[trigger] linked(clusters, path[a], path[b])
}

/// Whether `reachable` holds, in rising order, exactly the clusters that
/// every cluster of the path is linked with.
pub open spec fn reachable_exact(
    clusters: Seq<ClusterView>,
    path: Seq<u32>,
    reachable: Seq<u32>,
) -> bool {
    &&& is_rising(reachable)
    &&& forall|x: u32|
        #![trigger reachable.contains(x)]
        #![trigger linked_with_all(clusters, path, x)]
        reachable.contains(x) <==> linked_with_all(clusters, path, x)
}

/// Whether the best combination is a chain with the points that it is said
/// to have.
pub open spec fn best_is_chain(clusters: Seq<ClusterView>, best: Best) -> bool {
    &&& is_chain(clusters, best.path)
    &&& points_of(clusters, best.path) == best.score
}

/// Whether the points of every cluster with those it is linked with are its
/// own and theirs, added up.
pub open spec fn clusters_totalled(clusters: Seq<ClusterView>) -> bool {
    forall|c: int|
        0 <= c < clusters.len() ==> (#[trigger] clusters[c]).points_including_compatible_clusters
            == clusters[c].points + points_of(clusters, clusters[c].compatible_clusters)
}

/// A chain stays a chain when a cluster behind its last one joins it that
/// all its clusters are linked with.
proof fn lemma_chain_push(clusters: Seq<ClusterView>, path: Seq<u32>, next: u32)
    requires
        is_chain(clusters, path),
        path.len() > 0,
        path.last() < next < clusters.len(),
        linked_with_all(clusters, path, next),
    ensures
        is_chain(clusters, path.push(next)),
{
    lemma_path_push(clusters, path, next);
    let longer = path.push(next);
    assert forall|a: int, b: int| 0 <= a < b < longer.len() implies #[trigger] linked(
        clusters,
        longer[a],
        longer[b],
    ) by {
        if b < path.len() {
            assert(linked(clusters, path[a], path[b]));
        } else {
            assert(linked(clusters, path[a], next));
        }
    }
}

/// Going on with a reachable cluster leaves exactly the clusters reachable
/// that the longer path is linked with.
proof fn lemma_narrowed_exact(
    clusters: Seq<ClusterView>,
    path: Seq<u32>,
    reachable: Seq<u32>,
    cursor: int,
)
    requires
        search_wf(clusters, path, reachable, cursor),
        reachable_exact(clusters, path, reachable),
        cursor < reachable.len(),
    ensures
        reachable_exact(
            clusters,
            path.push(reachable[cursor]),
            intersection_from(
                reachable,
                clusters[reachable[cursor] as int].compatible_clusters,
                0,
                0,
            ),
        ),
        linked_with_all(clusters, path, reachable[cursor]),
{
    let next = reachable[cursor];
    let longer = path.push(next);
    let links = clusters[next as int].compatible_clusters;
    let narrowed = intersection_from(reachable, links, 0, 0);
    assert(reachable.contains(next));
    lemma_intersection_members(reachable, links, 0, 0);
    assert forall|x: u32|
        #![trigger narrowed.contains(x)]
        #![trigger linked_with_all(clusters, longer, x)]
        narrowed.contains(x) <==> linked_with_all(clusters, longer, x) by {
        if narrowed.contains(x) {
            let k = choose|k: int| 0 <= k < narrowed.len() && narrowed[k] == x;
            assert(links.contains(narrowed[k]));
            let a = choose|a: int| 0 <= a < reachable.len() && reachable[a] == narrowed[k];
            assert(reachable.contains(x));
            assert(linked_with_all(clusters, path, x));
            assert forall|a: int| 0 <= a < longer.len() implies #[trigger] linked(
                clusters,
                longer[a],
                x,
            ) by {
                if a < path.len() {
                    assert(linked(clusters, path[a], x));
                }
            }
        }
        if linked_with_all(clusters, longer, x) {
            assert forall|a: int| 0 <= a < path.len() implies #[trigger] linked(
                clusters,
                path[a],
                x,
            ) by {
                assert(linked(clusters, longer[a], x));
            }
            assert(reachable.contains(x));
            assert(linked(clusters, longer[path.len() as int], x));
            let a = choose|a: int| 0 <= a < reachable.len() && reachable[a] == x;
            let b = choose|b: int| 0 <= b < links.len() && links[b] == x;
            lemma_intersection_complete(reachable, links, 0, 0, a, b);
        }
    }
}

/// The search leaves a best combination that is a chain with the points it
/// is said to have.
proof fn lemma_explore_chain(
    clusters: Seq<ClusterView>,
    path: Seq<u32>,
    reachable: Seq<u32>,
    cursor: int,
    best: Best,
)
    requires
        search_wf(clusters, path, reachable, cursor),
        is_chain(clusters, path),
        reachable_exact(clusters, path, reachable),
        best_is_chain(clusters, best),
        points_from(clusters, 0, clusters.len() as int) <= u32::MAX,
    ensures
        best_is_chain(clusters, explore(clusters, path, reachable, cursor, best)),
    decreases clusters.len() - path.last(), reachable.len() - cursor,
{
    lemma_path_points(clusters, path);
    if cursor < reachable.len() {
        let next = reachable[cursor];
        let narrowed = intersection_from(
            reachable,
            clusters[next as int].compatible_clusters,
            0,
            0,
        );
        lemma_narrowed(clusters, path, reachable, cursor);
        lemma_narrowed_exact(clusters, path, reachable, cursor);
        lemma_chain_push(clusters, path, next);
        lemma_explore_chain(clusters, path.push(next), narrowed, 0, best);
        let deeper = explore(clusters, path.push(next), narrowed, 0, best);
        lemma_explore_chain(clusters, path, reachable, cursor + 1, deeper);
    }
}

/// The search finds at least the points of every chain that goes on from its
/// path with a cluster that it has still to try.
proof fn lemma_explore_best(
    clusters: Seq<ClusterView>,
    path: Seq<u32>,
    reachable: Seq<u32>,
    cursor: int,
    best: Best,
    chain: Seq<u32>,
    place: int,
)
    requires
        search_wf(clusters, path, reachable, cursor),
        is_chain(clusters, path),
        reachable_exact(clusters, path, reachable),
        best_is_chain(clusters, best),
        points_from(clusters, 0, clusters.len() as int) <= u32::MAX,
        is_chain(clusters, chain),
        chain.len() > path.len(),
        chain.take(path.len() as int) == path,
        cursor <= place < reachable.len(),
        reachable[place] == chain[path.len() as int],
    ensures
        points_of(clusters, chain) <= explore(clusters, path, reachable, cursor, best).score,
    decreases clusters.len() - path.last(), reachable.len() - cursor,
{
    let bound = points_from(clusters, 0, clusters.len() as int);
    let next = reachable[cursor];
    let links = clusters[next as int].compatible_clusters;
    let narrowed = intersection_from(reachable, links, 0, 0);
    let longer = path.push(next);
    lemma_narrowed(clusters, path, reachable, cursor);
    lemma_narrowed_exact(clusters, path, reachable, cursor);
    lemma_chain_push(clusters, path, next);
    lemma_path_points(clusters, best.path);
    lemma_explore(clusters, longer, narrowed, 0, best);
    lemma_explore_chain(clusters, longer, narrowed, 0, best);
    let deeper = explore(clusters, longer, narrowed, 0, best);
    lemma_path_points(clusters, deeper.path);
    lemma_explore(clusters, path, reachable, cursor + 1, deeper);
    let depth = path.len() as int;
    if place == cursor {
        assert(chain.take(depth + 1) =~= longer) by {
            assert forall|k: int| 0 <= k < depth + 1 implies chain.take(depth + 1)[k]
                == longer[k] by {
                if k < depth {
                    assert(chain.take(depth)[k] == path[k]);
                }
            }
        }
        if chain.len() == depth + 1 {
            assert(chain =~= longer);
        } else {
            let further = chain[depth + 1];
            assert forall|a: int| 0 <= a < longer.len() implies #[trigger] linked(
                clusters,
                longer[a],
                further,
            ) by {
                assert(chain.take(depth + 1)[a] == chain[a]);
                assert(linked(clusters, chain[a], chain[depth + 1]));
            }
            assert(linked_with_all(clusters, longer, further));
            assert(narrowed.contains(further));
            let at = choose|at: int| 0 <= at < narrowed.len() && narrowed[at] == further;
            lemma_explore_best(clusters, longer, narrowed, 0, best, chain, at);
        }
    } else {
        lemma_explore_chain(clusters, longer, narrowed, 0, best);
        lemma_explore_best(clusters, path, reachable, cursor + 1, deeper, chain, place);
    }
}

/// The points of a list of clusters are those of its first cluster and
/// those of the others.
proof fn lemma_points_of_first(clusters: Seq<ClusterView>, list: Seq<u32>)
    requires
        list.len() > 0,
    ensures
        points_of(clusters, list) == clusters[list[0] as int].points + points_of(
            clusters,
            list.skip(1),
        ),
    decreases list.len(),
{
    if list.len() == 1 {
        assert(list.drop_last() =~= Seq::<u32>::empty());
        assert(list.skip(1) =~= Seq::<u32>::empty());
        assert(points_of(clusters, list.drop_last()) == 0);
        assert(points_of(clusters, list.skip(1)) == 0);
    } else {
        lemma_points_of_first(clusters, list.drop_last());
        assert(list.drop_last().skip(1) =~= list.skip(1).drop_last());
        assert(list.skip(1).last() == list.last());
        assert(list.drop_last()[0] == list[0]);
    }
}

/// Clusters picked in rising order from a rising list have no more points
/// than the list.
proof fn lemma_part_points(clusters: Seq<ClusterView>, part: Seq<u32>, whole: Seq<u32>)
    requires
        is_rising(part),
        is_rising(whole),
        forall|k: int| 0 <= k < part.len() ==> whole.contains(#[trigger] part[k]),
    ensures
        points_of(clusters, part) <= points_of(clusters, whole),
    decreases whole.len(),
{
    lemma_points_nonnegative(clusters, whole);
    if part.len() > 0 {
        assert(whole.contains(part[0]));
        let shorter = whole.drop_last();
        assert(is_rising(shorter)) by {
            assert forall|i: int, j: int| 0 <= i < j < shorter.len() implies shorter[i]
                < shorter[j] by {
                assert(whole[i] < whole[j]);
            }
        }
        let rest = if part.last() == whole.last() {
            part.drop_last()
        } else {
            part
        };
        assert(is_rising(rest)) by {
            assert forall|i: int, j: int| 0 <= i < j < rest.len() implies rest[i] < rest[j] by {
                assert(part[i] < part[j]);
            }
        }
        assert forall|k: int| 0 <= k < rest.len() implies shorter.contains(#[trigger] rest[k]) by {
            assert(whole.contains(part[k]));
            let at = choose|at: int| 0 <= at < whole.len() && whole[at] == part[k];
            if at == whole.len() - 1 {
                if part.last() == whole.last() {
                    assert(part[k] < part[part.len() - 1]);
                } else {
                    assert(whole.contains(part[part.len() - 1]));
                    let end = choose|end: int|
                        0 <= end < whole.len() && whole[end] == part[part.len() - 1];
                    if k < part.len() - 1 {
                        assert(part[k] < part[part.len() - 1]);
                    }
                    if end < whole.len() - 1 {
                        assert(whole[end] < whole[whole.len() - 1]);
                    }
                }
                assert(false);
            }
            assert(shorter[at] == rest[k]);
        }
        lemma_part_points(clusters, rest, shorter);
    }
}

/// A chain has no more points than its first cluster with all the clusters
/// that this one is linked with.
proof fn lemma_chain_points(clusters: Seq<ClusterView>, chain: Seq<u32>)
    requires
        clusters_linked(clusters),
        is_chain(clusters, chain),
        chain.len() > 0,
    ensures
        points_of(clusters, chain) <= clusters[chain[0] as int].points + points_of(
            clusters,
            clusters[chain[0] as int].compatible_clusters,
        ),
{
    let first = chain[0];
    let others = chain.skip(1);
    let links = clusters[first as int].compatible_clusters;
    lemma_points_of_first(clusters, chain);
    assert(chain[0] < clusters.len());
    assert(is_rising(others)) by {
        assert forall|i: int, j: int| 0 <= i < j < others.len() implies others[i] < others[j] by {
            assert(chain[i + 1] < chain[j + 1]);
        }
    }
    assert forall|k: int| 0 <= k < others.len() implies links.contains(#[trigger] others[k]) by {
        assert(linked(clusters, chain[0], chain[k + 1]));
    }
    lemma_part_points(clusters, others, links);
}

/// The best combination after the clusters from `seed` on were tried is a
/// chain, and it has at least the points of the best combination before and
/// of the given chain, if that starts with one of these clusters.
proof fn lemma_combine_from_best(
    clusters: Seq<ClusterView>,
    seed: int,
    best: Best,
    chain: Seq<u32>,
)
    requires
        clusters_linked(clusters),
        clusters_totalled(clusters),
        points_from(clusters, 0, clusters.len() as int) <= u32::MAX,
        0 <= seed <= clusters.len(),
        best_is_chain(clusters, best),
        is_chain(clusters, chain),
        chain.len() > 0 ==> chain[0] >= seed || points_of(clusters, chain) <= best.score,
    ensures
        best_is_chain(clusters, combine_from(clusters, seed, best)),
        best.score <= combine_from(clusters, seed, best).score,
        points_of(clusters, chain) <= combine_from(clusters, seed, best).score,
    decreases clusters.len() - seed,
{
    lemma_path_points(clusters, best.path);
    lemma_path_points(clusters, chain);
    if chain.len() == 0 {
        assert(points_of(clusters, chain) == 0);
    }
    if seed < clusters.len() {
        let cluster = clusters[seed];
        let start = seq![seed as u32];
        let starts_here = chain.len() > 0 && chain[0] == seed;
        let after = if best.score >= cluster.points_including_compatible_clusters {
            best
        } else {
            explore(clusters, start, cluster.compatible_clusters, 0, best)
        };
        assert(is_chain(clusters, start));
        assert(all_behind(clusters, seed, cluster.compatible_clusters));
        assert forall|x: u32|
            #![trigger cluster.compatible_clusters.contains(x)]
            #![trigger linked_with_all(clusters, start, x)]
            cluster.compatible_clusters.contains(x) <==> linked_with_all(clusters, start, x) by {
            if cluster.compatible_clusters.contains(x) {
                assert forall|a: int| 0 <= a < start.len() implies #[trigger] linked(
                    clusters,
                    start[a],
                    x,
                ) by {}
            }
            if linked_with_all(clusters, start, x) {
                assert(linked(clusters, start[0], x));
            }
        }
        if best.score >= cluster.points_including_compatible_clusters {
            if starts_here {
                lemma_chain_points(clusters, chain);
            }
        } else {
            lemma_explore(clusters, start, cluster.compatible_clusters, 0, best);
            lemma_explore_chain(clusters, start, cluster.compatible_clusters, 0, best);
            if starts_here {
                if chain.len() == 1 {
                    assert(chain =~= start);
                } else {
                    assert(chain.take(1) =~= start);
                    assert(linked(clusters, chain[0], chain[1]));
                    let at = choose|at: int|
                        0 <= at < cluster.compatible_clusters.len()
                            && cluster.compatible_clusters[at] == chain[1];
                    lemma_explore_best(
                        clusters,
                        start,
                        cluster.compatible_clusters,
                        0,
                        best,
                        chain,
                        at,
                    );
                }
            }
        }
        lemma_combine_from_best(clusters, seed + 1, after, chain);
    } else if chain.len() > 0 {
        assert(chain[0] < clusters.len());
    }
}

/// The combine pass finds the chain with the most points: no chain of
/// clusters has more points than it gives, and some chain has as many.
pub proof fn lemma_combine_is_best_chain(clusters: Seq<ClusterView>, collect: bool)
    requires
        clusters_linked(clusters),
        clusters_totalled(clusters),
        points_from(clusters, 0, clusters.len() as int) <= u32::MAX,
    ensures
        forall|chain: Seq<u32>|
            #[trigger] is_chain(clusters, chain) ==> points_of(clusters, chain) <= combine_model(
                clusters,
                collect,
            ).0,
        exists|chain: Seq<u32>|
            #[trigger] is_chain(clusters, chain) && points_of(clusters, chain) == combine_model(
                clusters,
                collect,
            ).0,
{
    let start = Best { score: 0, path: Seq::empty() };
    assert(is_chain(clusters, start.path));
    assert forall|chain: Seq<u32>| #[trigger] is_chain(clusters, chain) implies points_of(
        clusters,
        chain,
    ) <= combine_model(clusters, collect).0 by {
        lemma_combine_from_best(clusters, 0, start, chain);
    }
    lemma_combine_from_best(clusters, 0, start, start.path);
    let best = combine_from(clusters, 0, start);
    assert(is_chain(clusters, best.path) && points_of(clusters, best.path) == combine_model(
        clusters,
        collect,
    ).0);
}

/// One level of the search: the cluster that joined the path there, the
/// clusters that can still join behind it, and how many of them were tried.
pub struct Item {
    pub cluster: u32,
    pub connected: Vec<u32>,
    pub index: usize,
}

/// What a level of the search stands for.
pub struct FrameView {
    pub cluster: u32,
    pub connected: Seq<u32>,
    pub index: int,
}

impl View for Item {
    type V = FrameView;

    open spec fn view(&self) -> FrameView {
        FrameView { cluster: self.cluster, connected: self.connected@, index: self.index as int }
    }
}

/// What the levels of a search stand for.
pub open spec fn frame_views(items: Seq<Item>) -> Seq<FrameView> {
    Seq::new(items.len(), |k: int| items[k]@)
}

/// The path that the levels of the search stand for.
pub open spec fn path_of(frames: Seq<FrameView>) -> Seq<u32> {
    Seq::new(frames.len(), |k: int| frames[k].cluster)
}

/// Whether the levels can occur in a search: each holds clusters behind its
/// own, and each level but the last is trying the cluster of the next.
pub open spec fn stack_wf(clusters: Seq<ClusterView>, frames: Seq<FrameView>) -> bool {
    &&& clusters_linked(clusters)
    &&& forall|k: int|
        0 <= k < frames.len() ==> {
            &&& (#[trigger] frames[k]).cluster < clusters.len()
            &&& all_behind(clusters, frames[k].cluster as int, frames[k].connected)
            &&& 0 <= frames[k].index <= frames[k].connected.len()
        }
    &&& forall|k: int|
        0 <= k < frames.len() - 1 ==> {
            &&& (#[trigger] frames[k]).index < frames[k].connected.len()
            &&& frames[k + 1].cluster == frames[k].connected[frames[k].index]
        }
}

/// The levels below the last one, the new last one moved on to its next
/// cluster.
pub open spec fn popped(frames: Seq<FrameView>) -> Seq<FrameView> {
    let parents = frames.drop_last();
    if parents.len() == 0 {
        parents
    } else {
        parents.update(
            parents.len() - 1,
            FrameView { index: parents.last().index + 1, ..parents.last() },
        )
    }
}

/// The best combination after the search was carried on from the given
/// levels to its end.
pub open spec fn unwind(clusters: Seq<ClusterView>, frames: Seq<FrameView>, best: Best) -> Best
    decreases frames.len(),
{
    if frames.len() == 0 {
        best
    } else {
        let top = frames.last();
        let after = explore(clusters, path_of(frames), top.connected, top.index, best);
        unwind(clusters, popped(frames), after)
    }
}

/// How many levels the search from the last cluster `top` of a path opens
/// and closes before it has tried `reachable` from place `cursor` on.
pub open spec fn steps(clusters: Seq<ClusterView>, top: int, reachable: Seq<u32>, cursor: int) -> int
    decreases clusters.len() - top, reachable.len() - cursor,
    when clusters_linked(clusters) && 0 <= top < clusters.len() && all_behind(
        clusters,
        top,
        reachable,
    ) && 0 <= cursor <= reachable.len()
{
    if cursor < reachable.len() {
        let next = reachable[cursor];
        let narrowed = intersection_from(
            reachable,
            clusters[next as int].compatible_clusters,
            0,
            0,
        );
        proof {
            lemma_narrowed(clusters, seq![top as u32], reachable, cursor);
        }
        1 + steps(clusters, next as int, narrowed, 0) + steps(clusters, top, reachable, cursor + 1)
    } else {
        1
    }
}

/// Every search opens and closes a level at the least.
proof fn lemma_steps_positive(
    clusters: Seq<ClusterView>,
    top: int,
    reachable: Seq<u32>,
    cursor: int,
)
    requires
        clusters_linked(clusters),
        0 <= top < clusters.len(),
        all_behind(clusters, top, reachable),
        0 <= cursor <= reachable.len(),
    ensures
        steps(clusters, top, reachable, cursor) >= 1,
    decreases clusters.len() - top, reachable.len() - cursor,
{
    if cursor < reachable.len() {
        let next = reachable[cursor];
        lemma_narrowed(clusters, seq![top as u32], reachable, cursor);
        lemma_steps_positive(
            clusters,
            next as int,
            intersection_from(reachable, clusters[next as int].compatible_clusters, 0, 0),
            0,
        );
        lemma_steps_positive(clusters, top, reachable, cursor + 1);
    }
}

/// How many levels the search still opens and closes from the given levels
/// to its end.
pub open spec fn work(clusters: Seq<ClusterView>, frames: Seq<FrameView>) -> int
    decreases frames.len(),
{
    if frames.len() == 0 {
        0
    } else {
        let top = frames.last();
        steps(clusters, top.cluster as int, top.connected, top.index) + work(
            clusters,
            popped(frames),
        )
    }
}

/// Closing the last level leaves levels that can occur in a search, and their
/// path is the path without its last cluster.
proof fn lemma_popped_wf(clusters: Seq<ClusterView>, frames: Seq<FrameView>)
    requires
        stack_wf(clusters, frames),
        frames.len() > 0,
    ensures
        stack_wf(clusters, popped(frames)),
        path_of(popped(frames)) == path_of(frames).drop_last(),
{
    let after = popped(frames);
    let parents = frames.drop_last();
    assert forall|k: int| 0 <= k < after.len() implies {
        &&& (#[trigger] after[k]).cluster < clusters.len()
        &&& all_behind(clusters, after[k].cluster as int, after[k].connected)
        &&& 0 <= after[k].index <= after[k].connected.len()
    } by {
        assert(frames[k].cluster < clusters.len());
    }
    assert forall|k: int| 0 <= k < after.len() - 1 implies {
        &&& (#[trigger] after[k]).index < after[k].connected.len()
        &&& after[k + 1].cluster == after[k].connected[after[k].index]
    } by {
        assert(frames[k].index < frames[k].connected.len());
    }
    assert(path_of(after) =~= path_of(frames).drop_last());
}

/// The levels of a search stand for no less than one step each.
proof fn lemma_work_nonnegative(clusters: Seq<ClusterView>, frames: Seq<FrameView>)
    requires
        stack_wf(clusters, frames),
    ensures
        work(clusters, frames) >= 0,
        frames.len() > 0 ==> work(clusters, frames) >= 1,
    decreases frames.len(),
{
    if frames.len() > 0 {
        let top = frames.last();
        assert(frames[frames.len() - 1].cluster < clusters.len());
        lemma_steps_positive(clusters, top.cluster as int, top.connected, top.index);
        lemma_popped_wf(clusters, frames);
        lemma_work_nonnegative(clusters, popped(frames));
    }
}

/// The path of a search is a path.
pub proof fn lemma_stack_path(clusters: Seq<ClusterView>, frames: Seq<FrameView>)
    requires
        stack_wf(clusters, frames),
    ensures
        path_wf(clusters, path_of(frames)),
    decreases frames.len(),
{
    if frames.len() > 0 {
        lemma_popped_wf(clusters, frames);
        lemma_stack_path(clusters, popped(frames));
        let path = path_of(frames);
        let earlier = path.drop_last();
        assert forall|i: int, j: int| 0 <= i < j < path.len() implies path[i] < path[j] by {
            if j < path.len() - 1 {
                assert(earlier[i] < earlier[j]);
            } else {
                let k = path.len() - 2;
                assert(frames[k].index < frames[k].connected.len());
                assert(frames[k].cluster < frames[k].connected[frames[k].index]);
                if i < k {
                    assert(earlier[i] < earlier[k]);
                }
            }
        }
        assert forall|k: int| 0 <= k < path.len() implies #[trigger] path[k] < clusters.len() by {
            assert(frames[k].cluster < clusters.len());
        }
    } else {
        assert(is_rising(path_of(frames)));
    }
}

/// Opening the level of the next cluster carries the search on as it would
/// go on anyway, one step nearer to its end.
pub proof fn lemma_open_level(clusters: Seq<ClusterView>, frames: Seq<FrameView>, best: Best)
    requires
        stack_wf(clusters, frames),
        frames.len() > 0,
        frames.last().index < frames.last().connected.len(),
    ensures
        ({
            let top = frames.last();
            let next = top.connected[top.index];
            let child = FrameView {
                cluster: next,
                connected: intersection_from(
                    top.connected,
                    clusters[next as int].compatible_clusters,
                    0,
                    0,
                ),
                index: 0,
            };
            &&& stack_wf(clusters, frames.push(child))
            &&& unwind(clusters, frames.push(child), best) == unwind(clusters, frames, best)
            &&& work(clusters, frames.push(child)) == work(clusters, frames) - 1
        }),
{
    let top = frames.last();
    let next = top.connected[top.index];
    let narrowed = intersection_from(top.connected, clusters[next as int].compatible_clusters, 0, 0);
    let child = FrameView { cluster: next, connected: narrowed, index: 0 };
    let longer = frames.push(child);
    let path = path_of(frames);
    assert(frames[frames.len() - 1].cluster < clusters.len());
    assert(path.last() == top.cluster);
    lemma_narrowed(clusters, path, top.connected, top.index);
    lemma_narrowed(clusters, seq![top.cluster], top.connected, top.index);
    assert forall|k: int| 0 <= k < longer.len() implies {
        &&& (#[trigger] longer[k]).cluster < clusters.len()
        &&& all_behind(clusters, longer[k].cluster as int, longer[k].connected)
        &&& 0 <= longer[k].index <= longer[k].connected.len()
    } by {
        if k < frames.len() {
            assert(frames[k].cluster < clusters.len());
        }
    }
    assert forall|k: int| 0 <= k < longer.len() - 1 implies {
        &&& (#[trigger] longer[k]).index < longer[k].connected.len()
        &&& longer[k + 1].cluster == longer[k].connected[longer[k].index]
    } by {
        if k < frames.len() - 1 {
            assert(frames[k].index < frames[k].connected.len());
        }
    }
    assert(path_of(longer) =~= path.push(next));
    assert(longer.drop_last() =~= frames);
    let moved = frames.update(frames.len() - 1, FrameView { index: top.index + 1, ..top });
    assert(popped(longer) == moved);
    assert(path_of(moved) =~= path);
    assert(popped(moved) =~= popped(frames)) by {
        assert(moved.drop_last() =~= frames.drop_last());
    }
    assert(moved.last() == FrameView { index: top.index + 1, ..top });
    assert(longer.last() == child);
    assert(search_wf(clusters, path, top.connected, top.index));
    let deeper = explore(clusters, path.push(next), narrowed, 0, best);
    let onward = explore(clusters, path, top.connected, top.index + 1, deeper);
    assert(explore(clusters, path, top.connected, top.index, best) == onward);
    assert(unwind(clusters, longer, best) == unwind(clusters, moved, deeper));
    assert(unwind(clusters, moved, deeper) == unwind(clusters, popped(moved), onward));
    assert(unwind(clusters, frames, best) == unwind(clusters, popped(frames), onward));
    let below = steps(clusters, next as int, narrowed, 0);
    let beside = steps(clusters, top.cluster as int, top.connected, top.index + 1);
    assert(steps(clusters, top.cluster as int, top.connected, top.index) == 1 + below + beside);
    assert(work(clusters, longer) == below + work(clusters, moved));
    assert(work(clusters, moved) == beside + work(clusters, popped(moved)));
    assert(work(clusters, frames) == 1 + below + beside + work(clusters, popped(frames)));
}

/// Enters `value` into a rising list unless it is there.
fn insert_member(list: &mut Vec<u32>, value: u32)
    ensures
        final(list)@ == with_member(old(list)@, value),
{
    let mut place: usize = 0;
    while place < list.len() && list[place] < value
        invariant
            place <= list@.len(),
            list@ == old(list)@,
            rising_place(list@, value, 0) == rising_place(list@, value, place as int),
        decreases list@.len() - place,
    {
        place = place + 1;
    }
    if place < list.len() && list[place] == value {
        return ;
    }
    list.insert(place, value);
}

/// The child level that the last level of `frames` opens next.
pub open spec fn next_level(clusters: Seq<ClusterView>, frames: Seq<FrameView>) -> FrameView {
    let top = frames.last();
    let next = top.connected[top.index];
    FrameView {
        cluster: next,
        connected: intersection_from(
            top.connected,
            clusters[next as int].compatible_clusters,
            0,
            0,
        ),
        index: 0,
    }
}

/// Opens the level of the next cluster that the last level has to try.
fn open_level(clusters: &Clusters, items: &mut Vec<Item>)
    requires
        clusters.wf(),
        stack_wf(clusters@, frame_views(old(items)@)),
        old(items)@.len() > 0,
        frame_views(old(items)@).last().index < frame_views(old(items)@).last().connected.len(),
    ensures
        frame_views(final(items)@) == frame_views(old(items)@).push(
            next_level(clusters@, frame_views(old(items)@)),
        ),
{
    let ghost frames = frame_views(items@);
    let top: usize = items.len() - 1;
    assert(frames[top as int] == items@[top as int]@);
    assert(frames.last() == frames[top as int]);
    let next_cluster: u32 = items[top].connected[items[top].index];
    assert(frames[top as int].connected[frames[top as int].index] == next_cluster);
    assert(clusters@[next_cluster as int].compatible_clusters
        == clusters.similar@[next_cluster as int].compatible_clusters@);
    // find all possible clusters that should be visited later
    let connected_clusters: Vec<u32> = collect_intersection(
        items[top].connected.as_slice(),
        clusters.similar[next_cluster as usize].compatible_clusters.as_slice(),
    );
    items.push(Item { cluster: next_cluster, connected: connected_clusters, index: 0 });
    assert(frame_views(items@) =~= frames.push(next_level(clusters@, frames)));
}

/// Closes the last level and moves the level below on to its next cluster.
fn close_level(items: &mut Vec<Item>, Ghost(clusters): Ghost<Seq<ClusterView>>)
    requires
        stack_wf(clusters, frame_views(old(items)@)),
        old(items)@.len() > 0,
    ensures
        frame_views(final(items)@) == popped(frame_views(old(items)@)),
{
    let ghost frames = frame_views(items@);
    let top: usize = items.len() - 1;
    items.pop();
    if top > 0 {
        assert(items@[top - 1]@ == frames[top - 1]);
        assert(frames[top - 1].index < frames[top - 1].connected.len());
        let tried: usize = items[top - 1].index;
        let reachable: usize = items[top - 1].connected.len();
        assert(tried < reachable);
        items[top - 1].index = tried + 1;
    }
    assert(frame_views(items@) =~= popped(frames));
}

/// Adds up the points of the clusters of the path.
fn path_score(clusters: &Clusters, items: &Vec<Item>) -> (score: u32)
    requires
        clusters.wf(),
        path_wf(clusters@, path_of(frame_views(items@))),
        points_of(clusters@, path_of(frame_views(items@))) <= u32::MAX,
    ensures
        score == points_of(clusters@, path_of(frame_views(items@))),
{
    let ghost all = clusters@;
    let ghost path = path_of(frame_views(items@));
    let mut score: u32 = 0;
    let mut k: usize = 0;
    while k < items.len()
        invariant
            k <= items@.len(),
            path == path_of(frame_views(items@)),
            all == clusters@,
            clusters.wf(),
            path_wf(all, path),
            points_of(all, path) <= u32::MAX,
            score == points_of(all, path.take(k as int)),
        decreases items@.len() - k,
    {
        proof {
            assert(path.take(k + 1).drop_last() =~= path.take(k as int));
            assert(path.take(k + 1).last() == items@[k as int]@.cluster);
            assert(path[k as int] < all.len());
            assert(all[path[k as int] as int].points == clusters.similar@[path[k as int] as int].points);
            lemma_points_prefix(all, path, k + 1);
        }
        score = score + clusters.similar[items[k].cluster as usize].points;
        k = k + 1;
    }
    assert(path.take(k as int) =~= path);
    score
}

/// Collects the clusters that those of the path are linked with.
fn collect_linked(clusters: &Clusters, items: &Vec<Item>) -> (collected: Vec<u32>)
    requires
        clusters.wf(),
        path_wf(clusters@, path_of(frame_views(items@))),
    ensures
        collected@ == collection_of(
            clusters@,
            path_of(frame_views(items@)),
            items@.len() as int,
        ),
{
    let ghost all = clusters@;
    let ghost path = path_of(frame_views(items@));
    let mut collected: Vec<u32> = Vec::new();
    let mut level: usize = 0;
    while level < items.len()
        invariant
            level <= items@.len(),
            path == path_of(frame_views(items@)),
            all == clusters@,
            clusters.wf(),
            path_wf(all, path),
            collected@ == collection_of(all, path, level as int),
        decreases items@.len() - level,
    {
        let member: usize = items[level].cluster as usize;
        proof {
            assert(path[level as int] == items@[level as int]@.cluster);
            assert(path[level as int] < all.len());
            assert(all[member as int].compatible_clusters
                == clusters.similar@[member as int].compatible_clusters@);
        }
        let linked: &Vec<u32> = &clusters.similar[member].compatible_clusters;
        let mut j: usize = 0;
        while j < linked.len()
            invariant
                j <= linked@.len(),
                level < path.len(),
                path[level as int] < all.len(),
                linked@ == all[path[level as int] as int].compatible_clusters,
                collected@ == with_members(collection_of(all, path, level as int), linked@, j as int),
            decreases linked@.len() - j,
        {
            insert_member(&mut collected, linked[j]);
            j = j + 1;
        }
        level = level + 1;
    }
    collected
}

/// Carries the search on from the levels at hand to its end.
fn search(
    clusters: &Clusters,
    items: &mut Vec<Item>,
    collect_compatible_clusters: bool,
    best_score: u32,
    minutiae_of_biggest: Vec<u32>,
    Ghost(best_path): Ghost<Seq<u32>>,
) -> (found: (u32, Vec<u32>, Ghost<Seq<u32>>))
    requires
        clusters.wf(),
        clusters_linked(clusters@),
        points_from(clusters@, 0, clusters@.len() as int) <= u32::MAX,
        best_score <= points_from(clusters@, 0, clusters@.len() as int),
        path_wf(clusters@, best_path),
        stack_wf(clusters@, frame_views(old(items)@)),
        minutiae_of_biggest@ == if collect_compatible_clusters {
            collection_of(clusters@, best_path, best_path.len() as int)
        } else {
            Seq::<u32>::empty()
        },
    ensures
        final(items)@.len() == 0,
        (Best { score: found.0, path: found.2@ }) == unwind(
            clusters@,
            frame_views(old(items)@),
            Best { score: best_score, path: best_path },
        ),
        found.0 <= points_from(clusters@, 0, clusters@.len() as int),
        path_wf(clusters@, found.2@),
        found.1@ == if collect_compatible_clusters {
            collection_of(clusters@, found.2@, found.2@.len() as int)
        } else {
            Seq::<u32>::empty()
        },
{
    let ghost all = clusters@;
    let ghost bound = points_from(all, 0, all.len() as int);
    let ghost target = unwind(
        all,
        frame_views(items@),
        Best { score: best_score, path: best_path },
    );
    let mut best_score: u32 = best_score;
    let ghost mut best_path: Seq<u32> = best_path;
    let mut minutiae_of_biggest: Vec<u32> = minutiae_of_biggest;
    while items.len() > 0
        invariant
            all == clusters@,
            clusters.wf(),
            clusters_linked(all),
            bound == points_from(all, 0, all.len() as int),
            bound <= u32::MAX,
            best_score <= bound,
            path_wf(all, best_path),
            stack_wf(all, frame_views(items@)),
            unwind(all, frame_views(items@), Best { score: best_score, path: best_path })
                == target,
            minutiae_of_biggest@ == if collect_compatible_clusters {
                collection_of(all, best_path, best_path.len() as int)
            } else {
                Seq::<u32>::empty()
            },
        decreases work(all, frame_views(items@)),
    {
        let ghost frames = frame_views(items@);
        let ghost best = Best { score: best_score, path: best_path };
        let top: usize = items.len() - 1;
        proof {
            assert(frames[top as int] == items@[top as int]@);
            assert(frames.last() == frames[top as int]);
            lemma_popped_wf(all, frames);
            lemma_work_nonnegative(all, popped(frames));
            lemma_stack_path(all, frames);
            lemma_path_points(all, path_of(frames));
            lemma_steps_positive(
                all,
                frames.last().cluster as int,
                frames.last().connected,
                frames.last().index,
            );
        }
        if items[top].index < items[top].connected.len() {
            proof {
                lemma_open_level(all, frames, best);
            }
            open_level(clusters, items);
        } else {
            // there is no more clusters connected to the current one
            if items[top].connected.len() == 0 {
                // we can't go any further from here so we calculate total score
                let score: u32 = path_score(clusters, items);
                if score > best_score {
                    best_score = score;
                    proof {
                        best_path = path_of(frames);
                    }
                    if collect_compatible_clusters {
                        minutiae_of_biggest = collect_linked(clusters, items);
                    }
                }
            }
            // so we can take it from the stack and then traverse another connections
            close_level(items, Ghost(all));
        }
    }
    proof {
        assert(frame_views(items@) =~= Seq::<FrameView>::empty());
    }
    (best_score, minutiae_of_biggest, Ghost(best_path))
}

/// Calculates the highest sum of points for compatible clusters.
pub fn combine_clusters(clusters: &Clusters, collect_compatible_clusters: bool) -> (combined: (
    u32,
    Vec<u32>,
))
    requires
        clusters.wf(),
        clusters_linked(clusters@),
        points_from(clusters@, 0, clusters@.len() as int) <= u32::MAX,
    ensures
        (combined.0, combined.1@) == combine_model(clusters@, collect_compatible_clusters),
        combined.0 <= points_from(clusters@, 0, clusters@.len() as int),
        clusters_summed(clusters@) ==> forall|c: int|
            0 <= c < clusters@.len() ==> combined.0 >= (#[trigger] clusters@[c]).points,
{
    let ghost all = clusters@;
    let ghost start = Best { score: 0, path: Seq::empty() };
    let ghost bound = points_from(all, 0, all.len() as int);
    proof {
        if clusters_summed(all) {
            lemma_combine_bounds(all, collect_compatible_clusters);
        }
    }
    let mut items: Vec<Item> = Vec::new();
    let mut best_score: u32 = 0;
    let ghost mut best_path: Seq<u32> = Seq::empty();
    let mut minutiae_of_biggest: Vec<u32> = Vec::new();
    let n: usize = clusters.similar.len();
    let mut cluster_index: usize = 0;
    proof {
        lemma_points_from_split(all, 0, 0, all.len() as int);
    }
    while cluster_index < n
        invariant
            cluster_index <= n,
            n == all.len(),
            all == clusters@,
            clusters.wf(),
            clusters_linked(all),
            bound == points_from(all, 0, all.len() as int),
            bound <= u32::MAX,
            best_score <= bound,
            path_wf(all, best_path),
            items@.len() == 0,
            combine_from(all, 0, start) == combine_from(
                all,
                cluster_index as int,
                Best { score: best_score, path: best_path },
            ),
            minutiae_of_biggest@ == if collect_compatible_clusters {
                collection_of(all, best_path, best_path.len() as int)
            } else {
                Seq::<u32>::empty()
            },
        decreases n - cluster_index,
    {
        assert(all[cluster_index as int].points_including_compatible_clusters
            == clusters.similar@[cluster_index as int].points_including_compatible_clusters);
        // No combination that starts here can beat the best one.
        if best_score >= clusters.similar[cluster_index].points_including_compatible_clusters {
            cluster_index = cluster_index + 1;
            continue ;
        }
        let connected: Vec<u32> = clusters.similar[cluster_index].compatible_clusters.clone();
        assert(connected@ =~= all[cluster_index as int].compatible_clusters);
        items.push(Item { cluster: cluster_index as u32, index: 0, connected });
        proof {
            let frames = frame_views(items@);
            assert(path_of(frames) =~= seq![cluster_index as u32]);
            assert(popped(frames) =~= Seq::<FrameView>::empty());
            assert(all_behind(all, cluster_index as int, frames[0].connected));
            let target = explore(
                all,
                seq![cluster_index as u32],
                all[cluster_index as int].compatible_clusters,
                0,
                Best { score: best_score, path: best_path },
            );
            assert(unwind(all, popped(frames), target) == target);
        }
        let found = search(
            clusters,
            &mut items,
            collect_compatible_clusters,
            best_score,
            minutiae_of_biggest,
            Ghost(best_path),
        );
        best_score = found.0;
        minutiae_of_biggest = found.1;
        proof {
            best_path = found.2@;
        }
        cluster_index = cluster_index + 1;
    }
    (best_score, minutiae_of_biggest)
}

/// The first clusters of a path have no more points than the whole path.
proof fn lemma_points_prefix(clusters: Seq<ClusterView>, path: Seq<u32>, k: int)
    requires
        0 <= k <= path.len(),
    ensures
        0 <= points_of(clusters, path.take(k)) <= points_of(clusters, path),
    decreases path.len() - k,
{
    if k < path.len() {
        lemma_points_prefix(clusters, path, k + 1);
        assert(path.take(k + 1).drop_last() =~= path.take(k));
        lemma_points_nonnegative(clusters, path.take(k));
    } else {
        assert(path.take(k) =~= path);
        lemma_points_nonnegative(clusters, path);
    }
}

/// Points add up to no less than zero.
proof fn lemma_points_nonnegative(clusters: Seq<ClusterView>, path: Seq<u32>)
    ensures
        0 <= points_of(clusters, path),
    decreases path.len(),
{
    if path.len() > 0 {
        lemma_points_nonnegative(clusters, path.drop_last());
    }
}

} // verus!
