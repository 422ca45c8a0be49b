//! Clusters of pairs that agree with each other, and what is kept of each.

use vstd::prelude::*;
use crate::consts::{Config, MAX_NUMBER_OF_PAIRS};
use crate::endpoint_set::{
    block_has_bit, endpoint_set_members, lemma_common_bit, lemma_nonzero_block_has_bit,
    EndpointSet, ENDPOINT_SET_BITS, ENDPOINT_SET_BLOCKS,
};
use crate::math::{
    are_angles_equal_with_tolerance, average_angles, is_angle, lemma_tally_of_angles,
    normalize_wide, slope_in_degrees_wide, spec_are_angles_equal_with_tolerance,
    spec_average_angles, spec_normalize_angle, spec_slope_in_degrees, AngleTally, Averager,
};
use crate::pair_holder::PairHolder;
use crate::types::{Format, Minutia, Pair};

verus! {

/// Structure containing various averages for pairs in a cluster.
#[derive(Clone, Copy, Debug)]
pub struct ClusterAverages {
    /// Average of `delta_theta` angles
    pub delta_theta: i32,
    /// Average value of `x` coordinates in fingerprint P
    pub probe_x: i32,
    /// Average value of `y` coordinates in fingerprint P
    pub probe_y: i32,
    /// Average value of `x` coordinates in fingerprint G
    pub gallery_x: i32,
    /// Average value of `y` coordinates in fingerprint G
    pub gallery_y: i32,
}

/// Packed structure that contains all minutiae that are included in the cluster.
/// Optimized for fast comparison between different clusters.
pub struct ClusterEndpoints {
    /// Minutiae of fingerprint P
    pub probe: EndpointSet,
    /// Minutiae of fingerprint G
    pub gallery: EndpointSet,
}

/// The points of a cluster, alone and with the clusters it is linked with.
pub struct ClusterSimilar {
    /// Number of points for this particular cluster.
    pub points: u32,
    /// Collection of clusters that are compatible - located in similar position on a fingerprint.
    pub compatible_clusters: Vec<u32>,
    /// Precalculated sum of points for all compatible clusters.
    pub points_including_compatible_clusters: u32,
}

/// What is known of one cluster.
pub struct ClusterView {
    pub points: u32,
    pub compatible_clusters: Seq<u32>,
    pub points_including_compatible_clusters: u32,
    pub averages: ClusterAverages,
    pub probe_endpoints: Set<int>,
    pub gallery_endpoints: Set<int>,
    pub pairs: Seq<u32>,
}

/// The clusters of one comparison, each kept in four parts.
pub struct Clusters {
    pub similar: Vec<ClusterSimilar>,
    pub averages: Vec<ClusterAverages>,
    pub endpoints: Vec<ClusterEndpoints>,
    pub pairs: Vec<Vec<u32>>,
}

impl View for Clusters {
    type V = Seq<ClusterView>;

    open spec fn view(&self) -> Seq<ClusterView> {
        Seq::new(
            self.similar@.len(),
            |i: int|
                ClusterView {
                    points: self.similar@[i].points,
                    compatible_clusters: self.similar@[i].compatible_clusters@,
                    points_including_compatible_clusters:
                        self.similar@[i].points_including_compatible_clusters,
                    averages: self.averages@[i],
                    probe_endpoints: endpoint_set_members(self.endpoints@[i].probe),
                    gallery_endpoints: endpoint_set_members(self.endpoints@[i].gallery),
                    pairs: self.pairs@[i]@,
                },
        )
    }
}

impl Clusters {
    /// The four parts are of one length.
    pub open spec fn wf(&self) -> bool {
        &&& self.averages@.len() == self.similar@.len()
        &&& self.endpoints@.len() == self.similar@.len()
        &&& self.pairs@.len() == self.similar@.len()
    }

    /// No clusters, with room for `capacity` of them.
    pub fn with_capacity(capacity: usize) -> (clusters: Clusters)
        ensures
            clusters.wf(),
            clusters@ == Seq::<ClusterView>::empty(),
    {
        let clusters = Clusters {
            similar: Vec::with_capacity(capacity),
            averages: Vec::with_capacity(capacity),
            endpoints: Vec::with_capacity(capacity),
            pairs: Vec::new(),
        };
        assert(clusters@ =~= Seq::<ClusterView>::empty());
        clusters
    }

    /// Appends a cluster, given in its four parts.
    pub fn push(
        &mut self,
        cluster: ClusterSimilar,
        averages: ClusterAverages,
        endpoints: ClusterEndpoints,
        selected: Vec<u32>,
    )
        requires
            old(self).wf(),
        ensures
            final(self).wf(),
            final(self)@ == old(self)@.push(
                ClusterView {
                    points: cluster.points,
                    compatible_clusters: cluster.compatible_clusters@,
                    points_including_compatible_clusters:
                        cluster.points_including_compatible_clusters,
                    averages,
                    probe_endpoints: endpoint_set_members(endpoints.probe),
                    gallery_endpoints: endpoint_set_members(endpoints.gallery),
                    pairs: selected@,
                },
            ),
    {
        self.similar.push(cluster);
        self.averages.push(averages);
        self.endpoints.push(endpoints);
        self.pairs.push(selected);
        assert(self@ =~= old(self)@.push(
            ClusterView {
                points: cluster.points,
                compatible_clusters: cluster.compatible_clusters@,
                points_including_compatible_clusters: cluster.points_including_compatible_clusters,
                averages,
                probe_endpoints: endpoint_set_members(endpoints.probe),
                gallery_endpoints: endpoint_set_members(endpoints.gallery),
                pairs: selected@,
            },
        ));
    }

    /// Number of clusters.
    pub fn len(&self) -> (len: usize)
        ensures
            len == self@.len(),
    {
        self.similar.len()
    }

    /// Drops all clusters.
    pub fn clear(&mut self)
        requires
            old(self).wf(),
        ensures
            final(self).wf(),
            final(self)@ == Seq::<ClusterView>::empty(),
    {
        self.similar.clear();
        self.averages.clear();
        self.endpoints.clear();
        self.pairs.clear();
        assert(self@ =~= Seq::<ClusterView>::empty());
    }
}

/// Whether every member of `selected` is the place of a pair.
pub open spec fn selection_within(selected: Seq<u32>, pairs: Seq<Pair>) -> bool {
    forall|k: int| 0 <= k < selected.len() ==> #[trigger] selected[k] < pairs.len()
}

/// The points of the selected pairs, added up.
pub open spec fn selected_points(pairs: Seq<Pair>, selected: Seq<u32>) -> int
    decreases selected.len(),
{
    if selected.len() == 0 {
        0
    } else {
        selected_points(pairs, selected.drop_last()) + pairs[selected.last() as int].points
    }
}

/// The points of the first `n` pairs, added up.
pub open spec fn total_points(pairs: Seq<Pair>, n: int) -> int
    decreases n,
{
    if n <= 0 {
        0
    } else {
        total_points(pairs, n - 1) + pairs[n - 1].points
    }
}

/// The first pairs of a selection have no more points than the whole
/// selection.
proof fn lemma_selected_points_prefix(pairs: Seq<Pair>, selected: Seq<u32>, k: int)
    requires
        0 <= k <= selected.len(),
    ensures
        0 <= selected_points(pairs, selected.take(k)) <= selected_points(pairs, selected),
    decreases selected.len() - k,
{
    if k < selected.len() {
        lemma_selected_points_prefix(pairs, selected, k + 1);
        assert(selected.take(k + 1).drop_last() =~= selected.take(k));
        lemma_selected_points_nonnegative(pairs, selected.take(k));
    } else {
        assert(selected.take(k) =~= selected);
        lemma_selected_points_nonnegative(pairs, selected);
    }
}

/// Points add up to no less than zero.
proof fn lemma_selected_points_nonnegative(pairs: Seq<Pair>, selected: Seq<u32>)
    ensures
        0 <= selected_points(pairs, selected),
    decreases selected.len(),
{
    if selected.len() > 0 {
        lemma_selected_points_nonnegative(pairs, selected.drop_last());
    }
}

/// Points add up to no less than zero.
pub proof fn lemma_total_points_nonnegative(pairs: Seq<Pair>, n: int)
    ensures
        0 <= total_points(pairs, n),
    decreases n,
{
    if n > 0 {
        lemma_total_points_nonnegative(pairs, n - 1);
    }
}

/// The points of those of the first `n` pairs whose places are in `places`.
pub open spec fn points_among(pairs: Seq<Pair>, n: int, places: Set<int>) -> int
    decreases n,
{
    if n <= 0 {
        0
    } else {
        points_among(pairs, n - 1, places) + if places.contains(n - 1) {
            pairs[n - 1].points as int
        } else {
            0
        }
    }
}

/// One more place adds the points of the pair at that place.
proof fn lemma_points_among_insert(pairs: Seq<Pair>, n: int, places: Set<int>, place: int)
    requires
        !places.contains(place),
    ensures
        points_among(pairs, n, places.insert(place)) == points_among(pairs, n, places) + if 0
            <= place < n {
            pairs[place].points as int
        } else {
            0
        },
    decreases n,
{
    if n > 0 {
        lemma_points_among_insert(pairs, n - 1, places, place);
    }
}

/// The pairs at some places have no more points than all pairs.
proof fn lemma_points_among_bounded(pairs: Seq<Pair>, n: int, places: Set<int>)
    ensures
        0 <= points_among(pairs, n, places) <= total_points(pairs, n),
    decreases n,
{
    if n > 0 {
        lemma_points_among_bounded(pairs, n - 1, places);
    }
}

/// The points of pairs selected once each are the points of the pairs at the
/// places selected.
proof fn lemma_selected_points_among(pairs: Seq<Pair>, selected: Seq<u32>)
    requires
        selection_within(selected, pairs),
        selected.no_duplicates(),
    ensures
        selected_points(pairs, selected) == points_among(
            pairs,
            pairs.len() as int,
            Set::new(|place: int| exists|k: int| 0 <= k < selected.len() && selected[k] == place),
        ),
    decreases selected.len(),
{
    let places = Set::new(
        |place: int| exists|k: int| 0 <= k < selected.len() && selected[k] == place,
    );
    if selected.len() > 0 {
        let earlier = selected.drop_last();
        let earlier_places = Set::new(
            |place: int| exists|k: int| 0 <= k < earlier.len() && earlier[k] == place,
        );
        assert forall|i: int, j: int| 0 <= i < j < earlier.len() implies earlier[i]
            != earlier[j] by {
            assert(selected[i] != selected[j]);
        }
        assert forall|k: int| 0 <= k < earlier.len() implies #[trigger] earlier[k]
            < pairs.len() by {
            assert(selected[k] < pairs.len());
        }
        lemma_selected_points_among(pairs, earlier);
        let last = selected.last() as int;
        assert(!earlier_places.contains(last)) by {
            if earlier_places.contains(last) {
                let k = choose|k: int| 0 <= k < earlier.len() && earlier[k] == last;
                assert(selected[k] != selected[selected.len() - 1]);
            }
        }
        assert(places =~= earlier_places.insert(last)) by {
            assert forall|place: int| places.contains(place) implies earlier_places.insert(
                last,
            ).contains(place) by {
                let k = choose|k: int| 0 <= k < selected.len() && selected[k] == place;
                if k < earlier.len() {
                    assert(earlier[k] == place);
                }
            }
            assert forall|place: int| earlier_places.insert(last).contains(
                place,
            ) implies places.contains(place) by {
                if place == last {
                    assert(selected[selected.len() - 1] == place);
                } else {
                    let k = choose|k: int| 0 <= k < earlier.len() && earlier[k] == place;
                    assert(selected[k] == place);
                }
            }
        }
        assert(selected[selected.len() - 1] < pairs.len());
        lemma_points_among_insert(pairs, pairs.len() as int, earlier_places, last);
    } else {
        assert(places =~= Set::<int>::empty());
        lemma_points_among_empty(pairs, pairs.len() as int);
    }
}

/// The pairs at no places have no points.
proof fn lemma_points_among_empty(pairs: Seq<Pair>, n: int)
    ensures
        points_among(pairs, n, Set::<int>::empty()) == 0,
    decreases n,
{
    if n > 0 {
        lemma_points_among_empty(pairs, n - 1);
    }
}

/// Pairs selected once each have no more points together than all pairs.
pub proof fn lemma_selected_points_bounded(pairs: Seq<Pair>, selected: Seq<u32>)
    requires
        selection_within(selected, pairs),
        selected.no_duplicates(),
    ensures
        0 <= selected_points(pairs, selected) <= total_points(pairs, pairs.len() as int),
{
    lemma_selected_points_among(pairs, selected);
    lemma_points_among_bounded(
        pairs,
        pairs.len() as int,
        Set::new(|place: int| exists|k: int| 0 <= k < selected.len() && selected[k] == place),
    );
}

/// Adds up the points of the selected pairs.
pub fn calculate_points(pairs: &PairHolder, selected_pairs: &Vec<u32>) -> (points: u32)
    requires
        selection_within(selected_pairs@, pairs@.pairs),
        selected_points(pairs@.pairs, selected_pairs@) <= u32::MAX,
    ensures
        points == selected_points(pairs@.pairs, selected_pairs@),
{
    let mut points: u32 = 0;
    let mut k: usize = 0;
    while k < selected_pairs.len()
        invariant
            k <= selected_pairs@.len(),
            selection_within(selected_pairs@, pairs@.pairs),
            selected_points(pairs@.pairs, selected_pairs@) <= u32::MAX,
            points == selected_points(pairs@.pairs, selected_pairs@.take(k as int)),
        decreases selected_pairs@.len() - k,
    {
        proof {
            lemma_selected_points_prefix(pairs@.pairs, selected_pairs@, k + 1);
            assert(selected_pairs@.take(k + 1).drop_last() =~= selected_pairs@.take(k as int));
        }
        let pair: &Pair = pairs.get(selected_pairs[k] as usize);
        points = points + pair.points;
        k = k + 1;
    }
    assert(selected_pairs@.take(k as int) =~= selected_pairs@);
    points
}

/// The rotations of the selected pairs, in the order of the selection.
pub open spec fn selected_rotations(pairs: Seq<Pair>, selected: Seq<u32>) -> Seq<int> {
    Seq::new(selected.len(), |k: int| pairs[selected[k] as int].delta_theta as int)
}

/// The circular mean of the rotations of the selected pairs.
pub open spec fn average_rotation(pairs: Seq<Pair>, selected: Seq<u32>) -> int {
    AngleTally::of(selected_rotations(pairs, selected)).circular_mean()
}

/// Averages the rotations of the selected pairs.
pub fn calculate_average_delta_theta_for_pairs(selected_pairs: &Vec<u32>, pairs: &PairHolder) -> (mean:
    i32)
    requires
        pairs.wf(),
        selection_within(selected_pairs@, pairs@.pairs),
        selected_pairs@.len() <= MAX_NUMBER_OF_PAIRS,
    ensures
        mean == average_rotation(pairs@.pairs, selected_pairs@),
        is_angle(mean as int),
{
    proof {
        pairs.lemma_wf();
    }
    let ghost rotations = selected_rotations(pairs@.pairs, selected_pairs@);
    let mut averager = Averager::new();
    let mut k: usize = 0;
    while k < selected_pairs.len()
        invariant
            k <= selected_pairs@.len(),
            selected_pairs@.len() <= MAX_NUMBER_OF_PAIRS,
            pairs@.wf(),
            selection_within(selected_pairs@, pairs@.pairs),
            rotations == selected_rotations(pairs@.pairs, selected_pairs@),
            averager.wf(),
            averager@ == AngleTally::of(rotations.take(k as int)),
            averager@.count() == k,
        decreases selected_pairs@.len() - k,
    {
        let pair: &Pair = pairs.get(selected_pairs[k] as usize);
        assert(pair.wf());
        averager.push(pair.delta_theta);
        proof {
            assert(rotations.take(k + 1).drop_last() =~= rotations.take(k as int));
            assert(rotations.take(k + 1).last() == pair.delta_theta);
        }
        k = k + 1;
    }
    assert(rotations.take(k as int) =~= rotations);
    averager.average()
}

/// The members of `selected` that `keep` holds of, in their order.
pub open spec fn retained(selected: Seq<u32>, keep: spec_fn(u32) -> bool) -> Seq<u32>
    decreases selected.len(),
{
    if selected.len() == 0 {
        Seq::empty()
    } else {
        let earlier = retained(selected.drop_last(), keep);
        if keep(selected.last()) {
            earlier.push(selected.last())
        } else {
            earlier
        }
    }
}

/// Whether the rotation of the pair at `place` equals `mean` up to the
/// tolerance.
pub open spec fn agrees_with(config: Config, pairs: Seq<Pair>, mean: int) -> spec_fn(u32) -> bool {
    |place: u32| spec_are_angles_equal_with_tolerance(config, pairs[place as int].delta_theta as int, mean)
}

/// The selection without the pairs whose rotation differs from the circular
/// mean of all rotations of the selection.
pub open spec fn filtered_selection(config: Config, pairs: Seq<Pair>, selected: Seq<u32>) -> Seq<u32> {
    retained(selected, agrees_with(config, pairs, average_rotation(pairs, selected)))
}

/// What is retained is part of the selection: every member came from it, in
/// the same order.
pub proof fn lemma_retained(selected: Seq<u32>, keep: spec_fn(u32) -> bool)
    ensures
        retained(selected, keep).len() <= selected.len(),
        forall|k: int|
            0 <= k < retained(selected, keep).len() ==> selected.contains(
                #[trigger] retained(selected, keep)[k],
            ),
        selected.no_duplicates() ==> retained(selected, keep).no_duplicates(),
    decreases selected.len(),
{
    if selected.len() > 0 {
        let earlier = selected.drop_last();
        lemma_retained(earlier, keep);
        let kept = retained(earlier, keep);
        assert forall|k: int| 0 <= k < retained(selected, keep).len() implies selected.contains(
            #[trigger] retained(selected, keep)[k],
        ) by {
            if k < kept.len() {
                assert(earlier.contains(kept[k]));
                let j = choose|j: int| 0 <= j < earlier.len() && earlier[j] == kept[k];
                assert(selected[j] == kept[k]);
            } else {
                assert(selected[selected.len() - 1] == selected.last());
            }
        }
        if selected.no_duplicates() {
            assert forall|i: int, j: int| 0 <= i < j < earlier.len() implies earlier[i]
                != earlier[j] by {
                assert(selected[i] != selected[j]);
            }
            assert(earlier.no_duplicates());
            if keep(selected.last()) {
                assert forall|i: int, j: int|
                    0 <= i < retained(selected, keep).len() && 0 <= j < retained(
                        selected,
                        keep,
                    ).len() && i != j implies retained(selected, keep)[i] != retained(
                    selected,
                    keep,
                )[j] by {
                    let all = retained(selected, keep);
                    if i < kept.len() && j < kept.len() {
                    } else {
                        let other = if i < kept.len() { i } else { j };
                        assert(earlier.contains(kept[other]));
                        let t = choose|t: int| 0 <= t < earlier.len() && earlier[t] == kept[other];
                        assert(selected[t] != selected[selected.len() - 1]);
                    }
                }
            }
        }
    }
}

/// Keeps of the selection the pairs whose rotation equals the mean rotation
/// of the whole selection up to the tolerance.
pub fn filter_selected(config: &Config, selected_pairs: &mut Vec<u32>, pairs: &PairHolder)
    requires
        pairs.wf(),
        selection_within(old(selected_pairs)@, pairs@.pairs),
        old(selected_pairs)@.len() <= MAX_NUMBER_OF_PAIRS,
    ensures
        final(selected_pairs)@ == filtered_selection(*config, pairs@.pairs, old(selected_pairs)@),
{
    let average: i32 = calculate_average_delta_theta_for_pairs(selected_pairs, pairs);
    let ghost keep = agrees_with(*config, pairs@.pairs, average as int);
    let ghost before = selected_pairs@;
    let mut kept: Vec<u32> = Vec::new();
    let mut k: usize = 0;
    while k < selected_pairs.len()
        invariant
            k <= selected_pairs@.len(),
            selected_pairs@ == before,
            selection_within(before, pairs@.pairs),
            keep == agrees_with(*config, pairs@.pairs, average as int),
            kept@ == retained(before.take(k as int), keep),
        decreases selected_pairs@.len() - k,
    {
        let place: u32 = selected_pairs[k];
        let pair: &Pair = pairs.get(place as usize);
        proof {
            assert(before.take(k + 1).drop_last() =~= before.take(k as int));
            assert(before.take(k + 1).last() == place);
        }
        if are_angles_equal_with_tolerance(config, pair.delta_theta, average) {
            kept.push(place);
        }
        k = k + 1;
    }
    assert(before.take(k as int) =~= before);
    *selected_pairs = kept;
}

/// What is known of a cluster when it is built from a selection.
pub open spec fn cluster_of_selection(
    probe: Seq<Minutia>,
    gallery: Seq<Minutia>,
    pairs: Seq<Pair>,
    selected: Seq<u32>,
) -> ClusterView {
    ClusterView {
        points: selected_points(pairs, selected) as u32,
        compatible_clusters: Seq::empty(),
        points_including_compatible_clusters: 0,
        averages: averages_of(probe, gallery, pairs, selected),
        probe_endpoints: probe_endpoints_of(pairs, selected),
        gallery_endpoints: gallery_endpoints_of(pairs, selected),
        pairs: selected,
    }
}

/// Whether the first endpoints of every pair are places in the two prints.
pub open spec fn pairs_within(pairs: Seq<Pair>, probe: Seq<Minutia>, gallery: Seq<Minutia>) -> bool {
    forall|i: int|
        0 <= i < pairs.len() ==> (#[trigger] pairs[i]).probe_k.0 < probe.len()
            && pairs[i].gallery_k.0 < gallery.len()
}

/// The sum over the selected pairs of `coordinate` of the pair.
pub open spec fn coordinate_sum(
    pairs: Seq<Pair>,
    selected: Seq<u32>,
    coordinate: spec_fn(Pair) -> int,
) -> int
    decreases selected.len(),
{
    if selected.len() == 0 {
        0
    } else {
        coordinate_sum(pairs, selected.drop_last(), coordinate) + coordinate(
            pairs[selected.last() as int],
        )
    }
}

/// `sum / count` rounded towards zero, for a positive count.
pub open spec fn truncated_quotient(sum: int, count: int) -> int {
    if sum >= 0 {
        sum / count
    } else {
        -((-sum) / count)
    }
}

/// The x coordinate of the probe's first endpoint of a pair.
pub open spec fn probe_x_of(probe: Seq<Minutia>) -> spec_fn(Pair) -> int {
    |pair: Pair| probe[pair.probe_k.0 as int].x as int
}

/// The y coordinate of the probe's first endpoint of a pair.
pub open spec fn probe_y_of(probe: Seq<Minutia>) -> spec_fn(Pair) -> int {
    |pair: Pair| probe[pair.probe_k.0 as int].y as int
}

/// The x coordinate of the gallery's first endpoint of a pair.
pub open spec fn gallery_x_of(gallery: Seq<Minutia>) -> spec_fn(Pair) -> int {
    |pair: Pair| gallery[pair.gallery_k.0 as int].x as int
}

/// The y coordinate of the gallery's first endpoint of a pair.
pub open spec fn gallery_y_of(gallery: Seq<Minutia>) -> spec_fn(Pair) -> int {
    |pair: Pair| gallery[pair.gallery_k.0 as int].y as int
}

/// The averages of a selection that is not empty: the circular mean of the
/// rotations, and the means, rounded towards zero, of the coordinates of the
/// first endpoints on each print.
pub open spec fn averages_of(
    probe: Seq<Minutia>,
    gallery: Seq<Minutia>,
    pairs: Seq<Pair>,
    selected: Seq<u32>,
) -> ClusterAverages {
    let count = selected.len() as int;
    ClusterAverages {
        delta_theta: average_rotation(pairs, selected) as i32,
        probe_x: truncated_quotient(coordinate_sum(pairs, selected, probe_x_of(probe)), count) as i32,
        probe_y: truncated_quotient(coordinate_sum(pairs, selected, probe_y_of(probe)), count) as i32,
        gallery_x: truncated_quotient(
            coordinate_sum(pairs, selected, gallery_x_of(gallery)),
            count,
        ) as i32,
        gallery_y: truncated_quotient(
            coordinate_sum(pairs, selected, gallery_y_of(gallery)),
            count,
        ) as i32,
    }
}

/// Divides a sum of `count` coordinates by their number.
fn mean_coordinate(sum: i64, count: i64) -> (mean: i32)
    requires
        0 < count <= MAX_NUMBER_OF_PAIRS,
        count * i32::MIN <= sum <= count * i32::MAX,
    ensures
        mean == truncated_quotient(sum as int, count as int),
{
    if sum >= 0 {
        assert(sum / count <= i32::MAX) by (nonlinear_arith)
            requires
                0 <= sum <= count * i32::MAX,
                0 < count,
        ;
        (sum / count) as i32
    } else {
        let negated: i64 = -sum;
        assert(0 <= negated / count <= 0x8000_0000) by (nonlinear_arith)
            requires
                0 < negated <= count * 0x8000_0000,
                0 < count,
        ;
        (-(negated / count)) as i32
    }
}

/// Calculate averages of various properties for a collection of pairs.
pub fn calculate_averages(
    probe_minutiae: &[Minutia],
    gallery_minutiae: &[Minutia],
    pairs: &PairHolder,
    selected_pairs: &Vec<u32>,
) -> (averages: ClusterAverages)
    requires
        pairs.wf(),
        pairs_within(pairs@.pairs, probe_minutiae@, gallery_minutiae@),
        selection_within(selected_pairs@, pairs@.pairs),
        0 < selected_pairs@.len() <= MAX_NUMBER_OF_PAIRS,
    ensures
        averages == averages_of(probe_minutiae@, gallery_minutiae@, pairs@.pairs, selected_pairs@),
        is_angle(averages.delta_theta as int),
{
    let ghost all = pairs@.pairs;
    let ghost chosen = selected_pairs@;
    let mut probe_x: i64 = 0;
    let mut probe_y: i64 = 0;
    let mut gallery_x: i64 = 0;
    let mut gallery_y: i64 = 0;
    let mut k: usize = 0;
    while k < selected_pairs.len()
        invariant
            k <= selected_pairs@.len(),
            chosen == selected_pairs@,
            all == pairs@.pairs,
            chosen.len() <= MAX_NUMBER_OF_PAIRS,
            pairs_within(all, probe_minutiae@, gallery_minutiae@),
            selection_within(chosen, all),
            probe_x == coordinate_sum(all, chosen.take(k as int), probe_x_of(probe_minutiae@)),
            probe_y == coordinate_sum(all, chosen.take(k as int), probe_y_of(probe_minutiae@)),
            gallery_x == coordinate_sum(all, chosen.take(k as int), gallery_x_of(gallery_minutiae@)),
            gallery_y == coordinate_sum(all, chosen.take(k as int), gallery_y_of(gallery_minutiae@)),
            k * i32::MIN <= probe_x <= k * i32::MAX,
            k * i32::MIN <= probe_y <= k * i32::MAX,
            k * i32::MIN <= gallery_x <= k * i32::MAX,
            k * i32::MIN <= gallery_y <= k * i32::MAX,
        decreases selected_pairs@.len() - k,
    {
        let pair: &Pair = pairs.get(selected_pairs[k] as usize);
        proof {
            assert(chosen.take(k + 1).drop_last() =~= chosen.take(k as int));
            assert(chosen.take(k + 1).last() == chosen[k as int]);
            assert(all[chosen[k as int] as int] == *pair);
        }
        let probe_endpoint: usize = pair.probe_k.as_usize();
        probe_x = probe_x + probe_minutiae[probe_endpoint].x as i64;
        probe_y = probe_y + probe_minutiae[probe_endpoint].y as i64;
        let gallery_endpoint: usize = pair.gallery_k.as_usize();
        gallery_x = gallery_x + gallery_minutiae[gallery_endpoint].x as i64;
        gallery_y = gallery_y + gallery_minutiae[gallery_endpoint].y as i64;
        k = k + 1;
    }
    assert(chosen.take(k as int) =~= chosen);
    let delta_theta: i32 = calculate_average_delta_theta_for_pairs(selected_pairs, pairs);
    let count: i64 = selected_pairs.len() as i64;
    ClusterAverages {
        delta_theta,
        probe_x: mean_coordinate(probe_x, count),
        probe_y: mean_coordinate(probe_y, count),
        gallery_x: mean_coordinate(gallery_x, count),
        gallery_y: mean_coordinate(gallery_y, count),
    }
}

/// The endpoints on the probe that the selected pairs touch.
pub open spec fn probe_endpoints_of(pairs: Seq<Pair>, selected: Seq<u32>) -> Set<int>
    decreases selected.len(),
{
    if selected.len() == 0 {
        Set::empty()
    } else {
        probe_endpoints_of(pairs, selected.drop_last()).insert(
            pairs[selected.last() as int].probe_k.0 as int,
        ).insert(pairs[selected.last() as int].probe_j.0 as int)
    }
}

/// The endpoints on the gallery that the selected pairs touch.
pub open spec fn gallery_endpoints_of(pairs: Seq<Pair>, selected: Seq<u32>) -> Set<int>
    decreases selected.len(),
{
    if selected.len() == 0 {
        Set::empty()
    } else {
        gallery_endpoints_of(pairs, selected.drop_last()).insert(
            pairs[selected.last() as int].gallery_k.0 as int,
        ).insert(pairs[selected.last() as int].gallery_j.0 as int)
    }
}

/// The endpoints that pairs with endpoints below the number of minutiae
/// touch are numbers that an endpoint set has room for.
pub proof fn lemma_endpoints_within(pairs: Seq<Pair>, selected: Seq<u32>)
    requires
        selection_within(selected, pairs),
        forall|i: int| 0 <= i < pairs.len() ==> (#[trigger] pairs[i]).wf(),
    ensures
        within_bits(probe_endpoints_of(pairs, selected)),
        within_bits(gallery_endpoints_of(pairs, selected)),
    decreases selected.len(),
{
    if selected.len() > 0 {
        assert forall|k: int| 0 <= k < selected.drop_last().len() implies
            #[trigger] selected.drop_last()[k] < pairs.len() by {
            assert(selected[k] < pairs.len());
        }
        lemma_endpoints_within(pairs, selected.drop_last());
        assert(selected[selected.len() - 1] < pairs.len());
        assert(pairs[selected.last() as int].wf());
    }
}

/// The mean rotation of pairs whose rotations are angles in normal form is
/// one.
pub proof fn lemma_average_rotation(pairs: Seq<Pair>, selected: Seq<u32>)
    requires
        selection_within(selected, pairs),
        forall|i: int| 0 <= i < pairs.len() ==> (#[trigger] pairs[i]).wf(),
    ensures
        is_angle(average_rotation(pairs, selected)),
{
    let rotations = selected_rotations(pairs, selected);
    assert forall|k: int| 0 <= k < rotations.len() implies is_angle(#[trigger] rotations[k]) by {
        assert(selected[k] < pairs.len());
        assert(pairs[selected[k] as int].wf());
    }
    lemma_tally_of_angles(rotations);
    crate::math::lemma_circular_mean_is_angle(AngleTally::of(rotations));
}

/// Builds a `ClusterEndpoints` structure for given collection of pairs.
pub fn encode_selected_endpoints(pairs: &PairHolder, selected: &Vec<u32>) -> (endpoints:
    ClusterEndpoints)
    requires
        pairs.wf(),
        selection_within(selected@, pairs@.pairs),
    ensures
        endpoint_set_members(endpoints.probe) == probe_endpoints_of(pairs@.pairs, selected@),
        endpoint_set_members(endpoints.gallery) == gallery_endpoints_of(pairs@.pairs, selected@),
{
    proof {
        pairs.lemma_wf();
    }
    let mut probe = EndpointSet::new();
    let mut gallery = EndpointSet::new();
    let mut k: usize = 0;
    while k < selected.len()
        invariant
            k <= selected@.len(),
            pairs@.wf(),
            selection_within(selected@, pairs@.pairs),
            endpoint_set_members(probe) == probe_endpoints_of(pairs@.pairs, selected@.take(k as int)),
            endpoint_set_members(gallery) == gallery_endpoints_of(
                pairs@.pairs,
                selected@.take(k as int),
            ),
        decreases selected@.len() - k,
    {
        let pair: &Pair = pairs.get(selected[k] as usize);
        proof {
            assert(pair.wf());
            assert(selected@.take(k + 1).drop_last() =~= selected@.take(k as int));
            assert(selected@.take(k + 1).last() == selected@[k as int]);
        }
        probe.insert(pair.probe_k.as_usize());
        probe.insert(pair.probe_j.as_usize());
        gallery.insert(pair.gallery_k.as_usize());
        gallery.insert(pair.gallery_j.as_usize());
        k = k + 1;
    }
    assert(selected@.take(k as int) =~= selected@);
    ClusterEndpoints { probe, gallery }
}

/// Whether a length difference is beyond the tolerance: its size exceeds
/// twice the factor times the sum of the two lengths.
pub open spec fn beyond_tolerance(config: Config, difference: int, sum: int) -> bool {
    (if difference >= 0 { difference } else { -difference }) * config.factor_denominator > 2
        * config.factor_numerator * sum
}

/// Tells whether a difference of squared lengths is beyond the tolerance.
pub fn is_beyond_tolerance(config: &Config, difference: i128, sum: i128) -> (beyond: bool)
    requires
        -0x4_0000_0000_0000_0000 <= difference <= 0x4_0000_0000_0000_0000,
        0 <= sum <= 0x4_0000_0000_0000_0000,
    ensures
        beyond == beyond_tolerance(*config, difference as int, sum as int),
{
    let size: i128 = if difference >= 0 {
        difference
    } else {
        -difference
    };
    let denominator: i128 = config.factor_denominator as i128;
    let numerator: i128 = config.factor_numerator as i128;
    assert(0 <= size * denominator <= 0x4_0000_0000_0000_0000 * 0x1_0000_0000) by (nonlinear_arith)
        requires
            0 <= size <= 0x4_0000_0000_0000_0000,
            0 <= denominator <= 0x1_0000_0000,
    ;
    assert(0 <= (2 * numerator) * sum <= 0x2_0000_0000 * 0x4_0000_0000_0000_0000)
        by (nonlinear_arith)
        requires
            0 <= sum <= 0x4_0000_0000_0000_0000,
            0 <= numerator <= 0x1_0000_0000,
    ;
    assert((2 * numerator) * sum == 2 * numerator * sum) by (nonlinear_arith);
    size * denominator > (2 * numerator) * sum
}

/// Whether two clusters with the given averages can belong to one match:
/// their rotations are equal up to the tolerance; the distance between them
/// is the same on both prints up to the length tolerance; and the turn from
/// the line between them on the gallery to that on the probe equals the mean
/// of their rotations up to the tolerance. In the ANSI format the y axis is
/// mirrored before the slopes are taken.
pub open spec fn clusters_compatible(
    config: Config,
    first: ClusterAverages,
    second: ClusterAverages,
    format: Format,
) -> bool {
    let probe_dx = second.probe_x - first.probe_x;
    let probe_dy = second.probe_y - first.probe_y;
    let gallery_dx = second.gallery_x - first.gallery_x;
    let gallery_dy = second.gallery_y - first.gallery_y;
    let probe_distance_squared = probe_dx * probe_dx + probe_dy * probe_dy;
    let gallery_distance_squared = gallery_dx * gallery_dx + gallery_dy * gallery_dy;
    let difference = match format {
        Format::NistInternal => spec_slope_in_degrees(probe_dx, probe_dy) - spec_slope_in_degrees(
            gallery_dx,
            gallery_dy,
        ),
        Format::Ansi => spec_slope_in_degrees(probe_dx, -probe_dy) - spec_slope_in_degrees(
            gallery_dx,
            -gallery_dy,
        ),
    };
    &&& spec_are_angles_equal_with_tolerance(
        config,
        second.delta_theta as int,
        first.delta_theta as int,
    )
    &&& !beyond_tolerance(
        config,
        probe_distance_squared - gallery_distance_squared,
        probe_distance_squared + gallery_distance_squared,
    )
    &&& spec_are_angles_equal_with_tolerance(
        config,
        spec_average_angles(first.delta_theta as int, second.delta_theta as int),
        spec_normalize_angle(difference),
    )
}

/// The square of a difference of two coordinates.
fn squared(difference: i64) -> (square: i128)
    requires
        -0x1_0000_0000 <= difference <= 0x1_0000_0000,
    ensures
        square == difference * difference,
        0 <= square <= 0x1_0000_0000_0000_0000,
{
    let wide: i128 = difference as i128;
    assert(0 <= wide * wide <= 0x1_0000_0000 * 0x1_0000_0000) by (nonlinear_arith)
        requires
            -0x1_0000_0000 <= wide <= 0x1_0000_0000,
    ;
    wide * wide
}

/// Check if one cluster is compatible to another by comparing their various averages.
pub fn are_clusters_compatible(
    config: &Config,
    averages1: &ClusterAverages,
    averages2: &ClusterAverages,
    format: Format,
) -> (compatible: bool)
    requires
        is_angle(averages1.delta_theta as int),
        is_angle(averages2.delta_theta as int),
    ensures
        compatible == clusters_compatible(*config, *averages1, *averages2, format),
{
    if !are_angles_equal_with_tolerance(config, averages2.delta_theta, averages1.delta_theta) {
        return false;
    }
    let probe_dx: i64 = averages2.probe_x as i64 - averages1.probe_x as i64;
    let probe_dy: i64 = averages2.probe_y as i64 - averages1.probe_y as i64;
    let gallery_dx: i64 = averages2.gallery_x as i64 - averages1.gallery_x as i64;
    let gallery_dy: i64 = averages2.gallery_y as i64 - averages1.gallery_y as i64;
    let probe_distance_squared: i128 = squared(probe_dx) + squared(probe_dy);
    let gallery_distance_squared: i128 = squared(gallery_dx) + squared(gallery_dy);
    if is_beyond_tolerance(
        config,
        probe_distance_squared - gallery_distance_squared,
        probe_distance_squared + gallery_distance_squared,
    ) {
        return false;
    }
    let average: i32 = average_angles(averages1.delta_theta, averages2.delta_theta);
    let difference: i64 = match format {
        Format::NistInternal => slope_in_degrees_wide(probe_dx, probe_dy) as i64
            - slope_in_degrees_wide(gallery_dx, gallery_dy) as i64,
        Format::Ansi => slope_in_degrees_wide(probe_dx, -probe_dy) as i64 - slope_in_degrees_wide(
            gallery_dx,
            -gallery_dy,
        ) as i64,
    };
    are_angles_equal_with_tolerance(config, average, normalize_wide(difference))
}

/// Whether two sets have a member in common.
pub open spec fn sets_intersect(first: Set<int>, second: Set<int>) -> bool {
    exists|i: int| first.contains(i) && second.contains(i)
}

/// Whether a set holds nothing but numbers that an endpoint set has room
/// for.
pub open spec fn within_bits(set: Set<int>) -> bool {
    forall|i: int| set.contains(i) ==> 0 <= i < ENDPOINT_SET_BITS
}

/// Tells whether two endpoint sets have a member in common.
fn sets_share(first: &EndpointSet, second: &EndpointSet) -> (share: bool)
    requires
        within_bits(endpoint_set_members(*first)),
        within_bits(endpoint_set_members(*second)),
    ensures
        share == sets_intersect(endpoint_set_members(*first), endpoint_set_members(*second)),
{
    let a: Vec<u64> = first.blocks();
    let b: Vec<u64> = second.blocks();
    let ghost left = endpoint_set_members(*first);
    let ghost right = endpoint_set_members(*second);
    let mut w: usize = 0;
    while w < ENDPOINT_SET_BLOCKS
        invariant
            w <= ENDPOINT_SET_BLOCKS,
            a@.len() == ENDPOINT_SET_BLOCKS,
            b@.len() == ENDPOINT_SET_BLOCKS,
            left == endpoint_set_members(*first),
            right == endpoint_set_members(*second),
            within_bits(left),
            within_bits(right),
            forall|i: int|
                0 <= i < ENDPOINT_SET_BITS ==> (left.contains(i) <==> block_has_bit(
                    #[trigger] a@[i / 64],
                    i % 64,
                )),
            forall|i: int|
                0 <= i < ENDPOINT_SET_BITS ==> (right.contains(i) <==> block_has_bit(
                    #[trigger] b@[i / 64],
                    i % 64,
                )),
            forall|i: int| 0 <= i < 64 * w ==> !(left.contains(i) && right.contains(i)),
        decreases ENDPOINT_SET_BLOCKS - w,
    {
        let both: u64 = a[w] & b[w];
        if both != 0 {
            proof {
                lemma_nonzero_block_has_bit(both);
                let k = choose|k: int| 0 <= k < 64 && block_has_bit(both, k);
                lemma_common_bit(a@[w as int], b@[w as int], k);
                let i = 64 * w + k;
                assert(i / 64 == w && i % 64 == k);
                assert(block_has_bit(a@[i / 64], i % 64));
                assert(block_has_bit(b@[i / 64], i % 64));
                assert(left.contains(i) && right.contains(i));
            }
            return true;
        }
        proof {
            assert forall|i: int| 0 <= i < 64 * (w + 1) implies !(left.contains(i)
                && right.contains(i)) by {
                if i >= 64 * w {
                    assert(i / 64 == w);
                    if left.contains(i) && right.contains(i) {
                        assert(block_has_bit(a@[i / 64], i % 64));
                        assert(block_has_bit(b@[i / 64], i % 64));
                        lemma_common_bit(a@[w as int], b@[w as int], i % 64);
                    }
                }
            }
        }
        w = w + 1;
    }
    false
}

/// Check whether clusters include common minutiae.
pub fn have_common_endpoints(first: &ClusterEndpoints, second: &ClusterEndpoints) -> (common: bool)
    requires
        within_bits(endpoint_set_members(first.probe)),
        within_bits(endpoint_set_members(first.gallery)),
        within_bits(endpoint_set_members(second.probe)),
        within_bits(endpoint_set_members(second.gallery)),
    ensures
        common == (sets_intersect(
            endpoint_set_members(first.probe),
            endpoint_set_members(second.probe),
        ) || sets_intersect(
            endpoint_set_members(first.gallery),
            endpoint_set_members(second.gallery),
        )),
{
    sets_share(&first.probe, &second.probe) || sets_share(&first.gallery, &second.gallery)
}

/// Whether two clusters can belong to one match: they share no minutia on
/// either print, and their averages are compatible.
pub open spec fn joinable(config: Config, first: ClusterView, second: ClusterView, format: Format) -> bool {
    &&& !sets_intersect(first.probe_endpoints, second.probe_endpoints)
    &&& !sets_intersect(first.gallery_endpoints, second.gallery_endpoints)
    &&& clusters_compatible(config, first.averages, second.averages, format)
}

/// The clusters behind cluster `i` and before `upto` that cluster `i` can be
/// joined with, in rising order.
pub open spec fn compatible_later(
    config: Config,
    clusters: Seq<ClusterView>,
    format: Format,
    i: int,
    upto: int,
) -> Seq<u32>
    decreases upto - i,
{
    if upto <= i + 1 {
        Seq::empty()
    } else {
        let earlier = compatible_later(config, clusters, format, i, upto - 1);
        if joinable(config, clusters[i], clusters[upto - 1], format) {
            earlier.push((upto - 1) as u32)
        } else {
            earlier
        }
    }
}

/// The points of the listed clusters, added up.
pub open spec fn points_of(clusters: Seq<ClusterView>, list: Seq<u32>) -> int
    decreases list.len(),
{
    if list.len() == 0 {
        0
    } else {
        points_of(clusters, list.drop_last()) + clusters[list.last() as int].points
    }
}

/// The points of the clusters from `lo` to before `hi`, added up.
pub open spec fn points_from(clusters: Seq<ClusterView>, lo: int, hi: int) -> int
    decreases hi - lo,
{
    if hi <= lo {
        0
    } else {
        points_from(clusters, lo, hi - 1) + clusters[hi - 1].points
    }
}

/// Clusters with at most `most` points each have at most as many times
/// `most` points together.
pub proof fn lemma_points_from_bound(clusters: Seq<ClusterView>, n: int, most: int)
    requires
        0 <= n <= clusters.len(),
        forall|c: int| 0 <= c < clusters.len() ==> (#[trigger] clusters[c]).points <= most,
    ensures
        points_from(clusters, 0, n) <= n * most,
    decreases n,
{
    if n > 0 {
        lemma_points_from_bound(clusters, n - 1, most);
        assert(clusters[n - 1].points <= most);
        assert((n - 1) * most + most == n * most) by (nonlinear_arith);
    } else {
        assert(n * most == 0) by (nonlinear_arith)
            requires
                n == 0,
        ;
    }
}

/// The points of a range of clusters are those of its two parts.
pub(crate) proof fn lemma_points_from_split(clusters: Seq<ClusterView>, lo: int, mid: int, hi: int)
    requires
        lo <= mid <= hi,
    ensures
        points_from(clusters, lo, hi) == points_from(clusters, lo, mid) + points_from(
            clusters,
            mid,
            hi,
        ),
        0 <= points_from(clusters, lo, mid),
        0 <= points_from(clusters, mid, hi),
    decreases hi - lo,
{
    if hi > mid {
        lemma_points_from_split(clusters, lo, mid, hi - 1);
    } else if mid > lo {
        lemma_points_from_split(clusters, lo, mid - 1, mid - 1);
    }
}

/// Cluster `i` with the clusters behind it that it can be joined with, and
/// with its points and theirs added up.
pub open spec fn linked_cluster(
    config: Config,
    clusters: Seq<ClusterView>,
    format: Format,
    i: int,
) -> ClusterView {
    let compatible = compatible_later(config, clusters, format, i, clusters.len() as int);
    ClusterView {
        compatible_clusters: compatible,
        points_including_compatible_clusters: (clusters[i].points + points_of(
            clusters,
            compatible,
        )) as u32,
        ..clusters[i]
    }
}

/// The clusters after each was linked with the compatible clusters behind
/// it.
pub open spec fn pairwise_model(config: Config, clusters: Seq<ClusterView>, format: Format) -> Seq<
    ClusterView,
> {
    Seq::new(clusters.len(), |i: int| linked_cluster(config, clusters, format, i))
}

/// Whether the averages and endpoints of every cluster are such as cluster
/// growth leaves them: the mean rotation is an angle in normal form, and the
/// endpoints are numbers that an endpoint set has room for.
pub open spec fn clusters_sound(clusters: Seq<ClusterView>) -> bool {
    forall|i: int|
        0 <= i < clusters.len() ==> {
            &&& is_angle((#[trigger] clusters[i]).averages.delta_theta as int)
            &&& within_bits(clusters[i].probe_endpoints)
            &&& within_bits(clusters[i].gallery_endpoints)
        }
}

/// What holds of the list of clusters that cluster `i` is linked with: it
/// rises, it lies behind `i` and before `upto`, and its points are no more
/// than those of all clusters there.
pub proof fn lemma_compatible_later(
    config: Config,
    clusters: Seq<ClusterView>,
    format: Format,
    i: int,
    upto: int,
)
    requires
        0 <= i,
        upto <= clusters.len(),
        clusters.len() <= 0x7fff_ffff,
    ensures
        forall|k: int|
            0 <= k < compatible_later(config, clusters, format, i, upto).len() ==> i
                < #[trigger] compatible_later(config, clusters, format, i, upto)[k] < upto,
        forall|j: int, k: int|
            0 <= j < k < compatible_later(config, clusters, format, i, upto).len()
                ==> compatible_later(config, clusters, format, i, upto)[j] < compatible_later(
                config,
                clusters,
                format,
                i,
                upto,
            )[k],
        0 <= points_of(clusters, compatible_later(config, clusters, format, i, upto))
            <= points_from(clusters, i + 1, upto),
    decreases upto - i,
{
    if upto > i + 1 {
        lemma_compatible_later(config, clusters, format, i, upto - 1);
        let earlier = compatible_later(config, clusters, format, i, upto - 1);
        if joinable(config, clusters[i], clusters[upto - 1], format) {
            assert(earlier.push((upto - 1) as u32).drop_last() =~= earlier);
        }
    }
}

/// Go through all the clusters and try to find ones that do not have common minutiae
/// and are compatible.
pub fn find_compatible_disjoint_clusters_and_accumulate_points(
    config: &Config,
    clusters: &mut Clusters,
    format: Format,
)
    requires
        old(clusters).wf(),
        clusters_sound(old(clusters)@),
        old(clusters)@.len() <= 0x7fff_ffff,
        points_from(old(clusters)@, 0, old(clusters)@.len() as int) <= u32::MAX,
    ensures
        final(clusters).wf(),
        final(clusters)@ == pairwise_model(*config, old(clusters)@, format),
{
    let ghost before = clusters@;
    let n: usize = clusters.similar.len();
    let mut cluster: usize = 0;
    while cluster < n
        invariant
            cluster <= n,
            n == before.len(),
            n <= 0x7fff_ffff,
            clusters.wf(),
            clusters.similar@.len() == n,
            clusters_sound(before),
            points_from(before, 0, n as int) <= u32::MAX,
            clusters.averages == old(clusters).averages,
            clusters.endpoints == old(clusters).endpoints,
            clusters.pairs == old(clusters).pairs,
            before == old(clusters)@,
            forall|i: int|
                0 <= i < n ==> (#[trigger] clusters.similar@[i]).points == before[i].points,
            forall|i: int|
                0 <= i < n ==> #[trigger] clusters@[i] == if i < cluster {
                    linked_cluster(*config, before, format, i)
                } else {
                    before[i]
                },
        decreases n - cluster,
    {
        let mut points_from_others: u32 = 0;
        let mut compatible_clusters: Vec<u32> = Vec::new();
        let mut other_cluster: usize = cluster + 1;
        proof {
            lemma_points_from_split(before, 0, cluster as int + 1, n as int);
            lemma_points_from_split(before, 0, cluster as int, cluster as int + 1);
            assert(before[cluster as int] == clusters@[cluster as int]);
        }
        while other_cluster < n
            invariant
                cluster < n,
                cluster + 1 <= other_cluster <= n,
                n == before.len(),
                n <= 0x7fff_ffff,
                clusters.wf(),
                clusters.similar@.len() == n,
                clusters_sound(before),
                clusters.averages == old(clusters).averages,
                clusters.endpoints == old(clusters).endpoints,
                before == old(clusters)@,
                forall|i: int|
                    0 <= i < n ==> (#[trigger] clusters.similar@[i]).points == before[i].points,
                points_from(before, cluster + 1, n as int) <= u32::MAX,
                compatible_clusters@ == compatible_later(
                    *config,
                    before,
                    format,
                    cluster as int,
                    other_cluster as int,
                ),
                points_from_others == points_of(before, compatible_clusters@),
            decreases n - other_cluster,
        {
            proof {
                assert(before[cluster as int].averages == clusters.averages@[cluster as int]);
                assert(before[other_cluster as int].averages == clusters.averages@[
                    other_cluster as int
                ]);
                lemma_compatible_later(
                    *config,
                    before,
                    format,
                    cluster as int,
                    other_cluster as int + 1,
                );
                lemma_points_from_split(before, cluster + 1, other_cluster as int + 1, n as int);
            }
            let next: usize = other_cluster + 1;
            if have_common_endpoints(
                &clusters.endpoints[cluster],
                &clusters.endpoints[other_cluster],
            ) {
                other_cluster = next;
                continue ;
            }
            if !are_clusters_compatible(
                config,
                &clusters.averages[cluster],
                &clusters.averages[other_cluster],
                format,
            ) {
                other_cluster = next;
                continue ;
            }
            proof {
                assert(compatible_clusters@.push(other_cluster as u32).drop_last()
                    =~= compatible_clusters@);
            }
            points_from_others = points_from_others + clusters.similar[other_cluster].points;
            compatible_clusters.push(other_cluster as u32);
            other_cluster = next;
        }
        proof {
            lemma_compatible_later(*config, before, format, cluster as int, n as int);
        }
        let ghost earlier = clusters@;
        let own: u32 = clusters.similar[cluster].points;
        clusters.similar[cluster].points_including_compatible_clusters = own + points_from_others;
        clusters.similar[cluster].compatible_clusters = compatible_clusters;
        proof {
            assert forall|i: int| 0 <= i < n implies #[trigger] clusters@[i] == if i < cluster + 1 {
                linked_cluster(*config, before, format, i)
            } else {
                before[i]
            } by {
                if i != cluster {
                    assert(clusters@[i] == earlier[i]);
                }
            }
        }
        cluster = cluster + 1;
    }
    assert(clusters@ =~= pairwise_model(*config, before, format));
}

} // verus!
