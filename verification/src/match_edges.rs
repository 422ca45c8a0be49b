//! Pairs of edges across two prints that could be the same structure.

use vstd::prelude::*;
use crate::clusters::{beyond_tolerance, is_beyond_tolerance};
use crate::consts::{Config, MAX_NUMBER_OF_MINUTIAE, MAX_NUMBER_OF_PAIRS};
use crate::find_edges::{edge_sound, edges_sound};
use crate::math::{
    are_angles_equal_with_tolerance, normalize_wide, spec_are_angles_equal_with_tolerance,
    spec_normalize_angle,
};
use crate::pair_holder::PairHolder;
use crate::types::{Edge, Minutia, Pair};

verus! {

/// Whether every edge has a length that is not negative and endpoints that
/// are places of a print of `count` minutiae.
pub open spec fn edges_usable(edges: Seq<Edge>, count: int) -> bool {
    forall|i: int|
        0 <= i < edges.len() ==> {
            &&& 0 <= (#[trigger] edges[i]).distance_squared
            &&& edges[i].endpoint_k.0 < count
            &&& edges[i].endpoint_j.0 < count
        }
}

/// Sound edges are usable.
pub proof fn lemma_sound_edges_usable(edges: Seq<Edge>, count: int)
    requires
        edges_sound(edges, count),
    ensures
        edges_usable(edges, count),
{
    assert forall|i: int| 0 <= i < edges.len() implies {
        &&& 0 <= (#[trigger] edges[i]).distance_squared
        &&& edges[i].endpoint_k.0 < count
        &&& edges[i].endpoint_j.0 < count
    } by {
        assert(edge_sound(edges[i], count));
    }
}

/// Whether the lengths of two edges differ by more than the tolerance.
pub open spec fn lengths_differ(config: Config, probe: Edge, gallery: Edge) -> bool {
    beyond_tolerance(
        config,
        gallery.distance_squared - probe.distance_squared,
        gallery.distance_squared + probe.distance_squared,
    )
}

/// Whether the angles of two edges are equal up to the tolerance.
pub open spec fn angles_match(config: Config, probe: Edge, gallery: Edge) -> bool {
    &&& spec_are_angles_equal_with_tolerance(
        config,
        probe.min_beta as int,
        gallery.min_beta as int,
    )
    &&& spec_are_angles_equal_with_tolerance(
        config,
        probe.max_beta as int,
        gallery.max_beta as int,
    )
}

/// The pair that a probe edge and a gallery edge make: the rotation between
/// their directions in normal form, and their endpoints, those of the
/// gallery edge swapped and the rotation turned by half a turn where the two
/// edges took their smaller angle from different ends.
pub open spec fn pair_between(probe: Edge, gallery: Edge, points: u32) -> Pair {
    let same = probe.beta_order == gallery.beta_order;
    Pair {
        delta_theta: spec_normalize_angle(
            probe.theta_kj - gallery.theta_kj - if same {
                0int
            } else {
                180int
            },
        ) as i32,
        probe_k: probe.endpoint_k,
        probe_j: probe.endpoint_j,
        gallery_k: if same {
            gallery.endpoint_k
        } else {
            gallery.endpoint_j
        },
        gallery_j: if same {
            gallery.endpoint_j
        } else {
            gallery.endpoint_k
        },
        points,
    }
}

/// Whether the endpoints of a pair are places in prints of so many minutiae.
pub open spec fn pair_within(pair: Pair, probe_count: int, gallery_count: int) -> bool {
    &&& pair.probe_k.0 < probe_count
    &&& pair.probe_j.0 < probe_count
    &&& pair.gallery_k.0 < gallery_count
    &&& pair.gallery_j.0 < gallery_count
}

/// The places of the probe edge and the gallery edge of every pair that the
/// walk still finds, behind those `found` already, until `room` are found.
///
/// Probe edge `i` is held against the gallery edges from `j` on; the next
/// probe edge will start at the gallery edge `start`. A gallery edge that
/// is too short for the probe edge is left behind for good: the following
/// probe edges start behind it. At a gallery edge that is too long the walk
/// goes on with the next probe edge. Of the others, those whose angles match
/// make pairs.
pub open spec fn walk_edges(
    config: Config,
    probe: Seq<Edge>,
    gallery: Seq<Edge>,
    limit: int,
    i: int,
    start: int,
    j: int,
    found: Seq<(int, int)>,
    room: int,
) -> Seq<(int, int)>
    decreases limit - i, gallery.len() - j,
{
    if i < 0 || i >= limit || start < 0 || j < 0 {
        found
    } else if j >= gallery.len() {
        walk_edges(config, probe, gallery, limit, i + 1, start, start, found, room)
    } else if lengths_differ(config, probe[i], gallery[j]) {
        if gallery[j].distance_squared - probe[i].distance_squared < 0 {
            walk_edges(config, probe, gallery, limit, i, j + 1, j + 1, found, room)
        } else {
            walk_edges(config, probe, gallery, limit, i + 1, start, start, found, room)
        }
    } else if !angles_match(config, probe[i], gallery[j]) {
        walk_edges(config, probe, gallery, limit, i, start, j + 1, found, room)
    } else {
        let longer = found.push((i, j));
        if longer.len() == room {
            longer
        } else {
            walk_edges(config, probe, gallery, limit, i, start, j + 1, longer, room)
        }
    }
}

/// The number of probe edges that are held against the gallery: all but the
/// last in strict mode, all otherwise.
pub open spec fn probe_limit(config: Config, probe: Seq<Edge>) -> int {
    if config.strict_mode {
        probe.len() - 1
    } else {
        probe.len() as int
    }
}

/// The places of the edges of every pair that two prints yield when there
/// is room for `room` pairs.
pub open spec fn matched_edges(config: Config, probe: Seq<Edge>, gallery: Seq<Edge>, room: int) -> Seq<
    (int, int),
> {
    if room <= 0 {
        Seq::empty()
    } else {
        walk_edges(
            config,
            probe,
            gallery,
            probe_limit(config, probe),
            0,
            0,
            0,
            Seq::empty(),
            room,
        )
    }
}

/// Whether `pair` is the pair of the probe edge at place `i` and the gallery
/// edge at place `j`, with points that `calculate_points` can give for the
/// four minutiae of the two edges.
pub open spec fn is_pair_of_match<F: Fn(&Minutia, &Minutia, &Minutia, &Minutia) -> u32>(
    pair: Pair,
    i: int,
    j: int,
    probe_edges: Seq<Edge>,
    probe_minutiae: Seq<Minutia>,
    gallery_edges: Seq<Edge>,
    gallery_minutiae: Seq<Minutia>,
    calculate_points: F,
) -> bool {
    &&& 0 <= i < probe_edges.len()
    &&& 0 <= j < gallery_edges.len()
    &&& pair == pair_between(probe_edges[i], gallery_edges[j], pair.points)
    &&& call_ensures(
        calculate_points,
        (
            &probe_minutiae[probe_edges[i].endpoint_k.0 as int],
            &probe_minutiae[probe_edges[i].endpoint_j.0 as int],
            &gallery_minutiae[gallery_edges[j].endpoint_k.0 as int],
            &gallery_minutiae[gallery_edges[j].endpoint_j.0 as int],
        ),
        pair.points,
    )
}

/// Whether `pairs` are the pairs of the edges at the places `matched`, one
/// after the other.
pub open spec fn pairs_of_matches<F: Fn(&Minutia, &Minutia, &Minutia, &Minutia) -> u32>(
    pairs: Seq<Pair>,
    matched: Seq<(int, int)>,
    probe_edges: Seq<Edge>,
    probe_minutiae: Seq<Minutia>,
    gallery_edges: Seq<Edge>,
    gallery_minutiae: Seq<Minutia>,
    calculate_points: F,
) -> bool {
    &&& pairs.len() == matched.len()
    &&& forall|t: int|
        0 <= t < pairs.len() ==> #[trigger] is_pair_of_match(
            pairs[t],
            matched[t].0,
            matched[t].1,
            probe_edges,
            probe_minutiae,
            gallery_edges,
            gallery_minutiae,
            calculate_points,
        )
}

/// The pairs found stay the pairs of their matches when one more match and
/// its pair join them.
proof fn lemma_one_more_match<F: Fn(&Minutia, &Minutia, &Minutia, &Minutia) -> u32>(
    pairs: Seq<Pair>,
    matched: Seq<(int, int)>,
    probe_edges: Seq<Edge>,
    probe_minutiae: Seq<Minutia>,
    gallery_edges: Seq<Edge>,
    gallery_minutiae: Seq<Minutia>,
    calculate_points: F,
    i: int,
    j: int,
    pair: Pair,
)
    requires
        pairs_of_matches(
            pairs,
            matched,
            probe_edges,
            probe_minutiae,
            gallery_edges,
            gallery_minutiae,
            calculate_points,
        ),
        is_pair_of_match(
            pair,
            i,
            j,
            probe_edges,
            probe_minutiae,
            gallery_edges,
            gallery_minutiae,
            calculate_points,
        ),
    ensures
        pairs_of_matches(
            pairs.push(pair),
            matched.push((i, j)),
            probe_edges,
            probe_minutiae,
            gallery_edges,
            gallery_minutiae,
            calculate_points,
        ),
{
    let longer = pairs.push(pair);
    let found = matched.push((i, j));
    assert forall|t: int| 0 <= t < longer.len() implies #[trigger] is_pair_of_match(
        longer[t],
        found[t].0,
        found[t].1,
        probe_edges,
        probe_minutiae,
        gallery_edges,
        gallery_minutiae,
        calculate_points,
    ) by {
        if t < pairs.len() {
            assert(is_pair_of_match(
                pairs[t],
                matched[t].0,
                matched[t].1,
                probe_edges,
                probe_minutiae,
                gallery_edges,
                gallery_minutiae,
                calculate_points,
            ));
        }
    }
}

/// Builds the pair of two edges.
fn make_pair(probe: &Edge, gallery: &Edge, points: u32) -> (pair: Pair)
    ensures
        pair == pair_between(*probe, *gallery, points),
        -180 < pair.delta_theta <= 180,
{
    let same: bool = probe.beta_order == gallery.beta_order;
    let mut delta_theta: i64 = probe.theta_kj as i64 - gallery.theta_kj as i64;
    if !same {
        delta_theta = delta_theta - 180;
    }
    Pair {
        delta_theta: normalize_wide(delta_theta),
        probe_k: probe.endpoint_k,
        probe_j: probe.endpoint_j,
        gallery_k: if same {
            gallery.endpoint_k
        } else {
            gallery.endpoint_j
        },
        gallery_j: if same {
            gallery.endpoint_j
        } else {
            gallery.endpoint_k
        },
        points,
    }
}

/// Holds the probe edges against the gallery edges and appends the pairs
/// found to `pairs`, until `pairs` is full.
pub fn scalar_match_edges_into_pairs<F: Fn(&Minutia, &Minutia, &Minutia, &Minutia) -> u32>(
    config: &Config,
    probe_edges: &[Edge],
    probe_minutiae: &[Minutia],
    gallery_edges: &[Edge],
    gallery_minutiae: &[Minutia],
    pairs: &mut PairHolder,
    calculate_points: F,
)
    requires
        old(pairs).wf(),
        probe_edges@.len() > 0,
        gallery_edges@.len() > 0,
        probe_minutiae@.len() <= MAX_NUMBER_OF_MINUTIAE,
        gallery_minutiae@.len() <= MAX_NUMBER_OF_MINUTIAE,
        edges_usable(probe_edges@, probe_minutiae@.len() as int),
        edges_usable(gallery_edges@, gallery_minutiae@.len() as int),
        forall|a: &Minutia, b: &Minutia, c: &Minutia, d: &Minutia|
            call_requires(calculate_points, (a, b, c, d)),
    ensures
        final(pairs).wf(),
        old(pairs)@.pairs.is_prefix_of(final(pairs)@.pairs),
        pairs_of_matches(
            final(pairs)@.pairs.skip(old(pairs)@.pairs.len() as int),
            matched_edges(
                *config,
                probe_edges@,
                gallery_edges@,
                MAX_NUMBER_OF_PAIRS - old(pairs)@.pairs.len(),
            ),
            probe_edges@,
            probe_minutiae@,
            gallery_edges@,
            gallery_minutiae@,
            calculate_points,
        ),
        final(pairs)@.pairs.len() == old(pairs)@.pairs.len() ==> final(pairs)@ == old(pairs)@,
        final(pairs)@.pairs.len() > old(pairs)@.pairs.len() ==> !final(pairs)@.prepared,
        forall|t: int|
            old(pairs)@.pairs.len() <= t < final(pairs)@.pairs.len() ==> pair_within(
                #[trigger] final(pairs)@.pairs[t],
                probe_minutiae@.len() as int,
                gallery_minutiae@.len() as int,
            ),
{
    proof {
        pairs.lemma_wf();
    }
    let ghost existing = pairs@.pairs;
    let ghost room = MAX_NUMBER_OF_PAIRS - existing.len();
    let ghost target = matched_edges(*config, probe_edges@, gallery_edges@, room);
    let ghost mut found: Seq<(int, int)> = Seq::empty();
    if pairs.len() >= MAX_NUMBER_OF_PAIRS {
        assert(pairs@.pairs.skip(existing.len() as int) =~= Seq::<Pair>::empty());
        assert(existing =~= pairs@.pairs.subrange(0, existing.len() as int));
        return ;
    }
    let limit: usize = if config.strict_mode {
        probe_edges.len() - 1
    } else {
        probe_edges.len()
    };
    let count: usize = gallery_edges.len();
    let mut start: usize = 0;
    let mut i: usize = 0;
    let mut done: bool = false;
    proof {
        assert(pairs@.pairs.skip(existing.len() as int) =~= Seq::<Pair>::empty());
        assert(existing =~= pairs@.pairs.subrange(0, existing.len() as int));
    }
    while !done && i < limit
        invariant
            pairs.wf(),
            limit == probe_limit(*config, probe_edges@),
            limit <= probe_edges@.len(),
            count == gallery_edges@.len(),
            i <= limit,
            start <= count,
            probe_minutiae@.len() <= MAX_NUMBER_OF_MINUTIAE,
            gallery_minutiae@.len() <= MAX_NUMBER_OF_MINUTIAE,
            edges_usable(probe_edges@, probe_minutiae@.len() as int),
            edges_usable(gallery_edges@, gallery_minutiae@.len() as int),
            forall|a: &Minutia, b: &Minutia, c: &Minutia, d: &Minutia|
                call_requires(calculate_points, (a, b, c, d)),
            existing == old(pairs)@.pairs,
            room == MAX_NUMBER_OF_PAIRS - existing.len(),
            room > 0,
            found.len() < room || done,
            existing.is_prefix_of(pairs@.pairs),
            pairs@.pairs.len() == existing.len() + found.len(),
            pairs_of_matches(
                pairs@.pairs.skip(existing.len() as int),
                found,
                probe_edges@,
                probe_minutiae@,
                gallery_edges@,
                gallery_minutiae@,
                calculate_points,
            ),
            forall|t: int|
                existing.len() <= t < pairs@.pairs.len() ==> pair_within(
                    #[trigger] pairs@.pairs[t],
                    probe_minutiae@.len() as int,
                    gallery_minutiae@.len() as int,
                ),
            found.len() == 0 ==> pairs@ == old(pairs)@,
            found.len() > 0 ==> !pairs@.prepared,
            target == if done {
                found
            } else {
                walk_edges(
                    *config,
                    probe_edges@,
                    gallery_edges@,
                    limit as int,
                    i as int,
                    start as int,
                    start as int,
                    found,
                    room,
                )
            },
        decreases limit - i + if done { 0int } else { 1int },
    {
        let probe: &Edge = &probe_edges[i];
        let mut j: usize = start;
        let mut next: bool = false;
        while !done && !next && j < count
            invariant
                pairs.wf(),
                limit == probe_limit(*config, probe_edges@),
                limit <= probe_edges@.len(),
                count == gallery_edges@.len(),
                i < limit,
                *probe == probe_edges@[i as int],
                start <= j <= count,
                probe_minutiae@.len() <= MAX_NUMBER_OF_MINUTIAE,
                gallery_minutiae@.len() <= MAX_NUMBER_OF_MINUTIAE,
                edges_usable(probe_edges@, probe_minutiae@.len() as int),
                edges_usable(gallery_edges@, gallery_minutiae@.len() as int),
                forall|a: &Minutia, b: &Minutia, c: &Minutia, d: &Minutia|
                    call_requires(calculate_points, (a, b, c, d)),
                existing == old(pairs)@.pairs,
                room == MAX_NUMBER_OF_PAIRS - existing.len(),
                room > 0,
                found.len() < room || done,
                existing.is_prefix_of(pairs@.pairs),
                pairs@.pairs.len() == existing.len() + found.len(),
                pairs_of_matches(
                    pairs@.pairs.skip(existing.len() as int),
                    found,
                    probe_edges@,
                    probe_minutiae@,
                    gallery_edges@,
                    gallery_minutiae@,
                    calculate_points,
                ),
                forall|t: int|
                    existing.len() <= t < pairs@.pairs.len() ==> pair_within(
                        #[trigger] pairs@.pairs[t],
                        probe_minutiae@.len() as int,
                        gallery_minutiae@.len() as int,
                    ),
                found.len() == 0 ==> pairs@ == old(pairs)@,
                found.len() > 0 ==> !pairs@.prepared,
                target == if done {
                    found
                } else if next {
                    walk_edges(
                        *config,
                        probe_edges@,
                        gallery_edges@,
                        limit as int,
                        i + 1,
                        start as int,
                        start as int,
                        found,
                        room,
                    )
                } else {
                    walk_edges(
                        *config,
                        probe_edges@,
                        gallery_edges@,
                        limit as int,
                        i as int,
                        start as int,
                        j as int,
                        found,
                        room,
                    )
                },
            decreases count - j + if done || next { 0int } else { 1int },
        {
            let gallery: &Edge = &gallery_edges[j];
            assert(0 <= probe_edges@[i as int].distance_squared);
            assert(0 <= gallery_edges@[j as int].distance_squared);
            let dz: i128 = gallery.distance_squared as i128 - probe.distance_squared as i128;
            let sum: i128 = gallery.distance_squared as i128 + probe.distance_squared as i128;
            if is_beyond_tolerance(config, dz, sum) {
                if dz < 0 {
                    start = j + 1;
                    j = j + 1;
                } else {
                    next = true;
                }
                continue ;
            }
            if !(are_angles_equal_with_tolerance(config, probe.min_beta, gallery.min_beta)
                && are_angles_equal_with_tolerance(config, probe.max_beta, gallery.max_beta)) {
                j = j + 1;
                continue ;
            }
            let points: u32 = calculate_points(
                &probe_minutiae[probe.endpoint_k.as_usize()],
                &probe_minutiae[probe.endpoint_j.as_usize()],
                &gallery_minutiae[gallery.endpoint_k.as_usize()],
                &gallery_minutiae[gallery.endpoint_j.as_usize()],
            );
            let pair: Pair = make_pair(probe, gallery, points);
            let ghost before = pairs@.pairs;
            let ghost earlier = found;
            pairs.push(pair);
            proof {
                assert forall|t: int| existing.len() <= t < pairs@.pairs.len() implies pair_within(
                    #[trigger] pairs@.pairs[t],
                    probe_minutiae@.len() as int,
                    gallery_minutiae@.len() as int,
                ) by {
                    if t < before.len() {
                        assert(pairs@.pairs[t] == before[t]);
                    }
                }
                found = found.push((i as int, j as int));
                let fresh = pairs@.pairs.skip(existing.len() as int);
                let known = before.skip(existing.len() as int);
                assert(fresh =~= known.push(pair));
                assert(existing =~= pairs@.pairs.subrange(0, existing.len() as int)) by {
                    assert(existing == before.subrange(0, existing.len() as int));
                }
                lemma_one_more_match(
                    known,
                    earlier,
                    probe_edges@,
                    probe_minutiae@,
                    gallery_edges@,
                    gallery_minutiae@,
                    calculate_points,
                    i as int,
                    j as int,
                    pair,
                );
            }
            if pairs.len() == MAX_NUMBER_OF_PAIRS {
                done = true;
            } else {
                j = j + 1;
            }
        }
        if !done {
            i = i + 1;
        }
    }
}

/// Finds the pairs of edges of two prints and appends them to `pairs`.
/// Where either print has no edges, there are no pairs.
pub fn match_edges_into_pairs<F: Fn(&Minutia, &Minutia, &Minutia, &Minutia) -> u32>(
    config: &Config,
    probe_edges: &[Edge],
    probe_minutiae: &[Minutia],
    gallery_edges: &[Edge],
    gallery_minutiae: &[Minutia],
    pairs: &mut PairHolder,
    calculate_points: F,
)
    requires
        old(pairs).wf(),
        probe_minutiae@.len() <= MAX_NUMBER_OF_MINUTIAE,
        gallery_minutiae@.len() <= MAX_NUMBER_OF_MINUTIAE,
        edges_usable(probe_edges@, probe_minutiae@.len() as int),
        edges_usable(gallery_edges@, gallery_minutiae@.len() as int),
        forall|a: &Minutia, b: &Minutia, c: &Minutia, d: &Minutia|
            call_requires(calculate_points, (a, b, c, d)),
    ensures
        final(pairs).wf(),
        old(pairs)@.pairs.is_prefix_of(final(pairs)@.pairs),
        probe_edges@.len() == 0 || gallery_edges@.len() == 0 ==> final(pairs)@ == old(pairs)@,
        probe_edges@.len() > 0 && gallery_edges@.len() > 0 ==> pairs_of_matches(
            final(pairs)@.pairs.skip(old(pairs)@.pairs.len() as int),
            matched_edges(
                *config,
                probe_edges@,
                gallery_edges@,
                MAX_NUMBER_OF_PAIRS - old(pairs)@.pairs.len(),
            ),
            probe_edges@,
            probe_minutiae@,
            gallery_edges@,
            gallery_minutiae@,
            calculate_points,
        ),
        final(pairs)@.pairs.len() == old(pairs)@.pairs.len() ==> final(pairs)@ == old(pairs)@,
        final(pairs)@.pairs.len() > old(pairs)@.pairs.len() ==> !final(pairs)@.prepared,
        forall|t: int|
            old(pairs)@.pairs.len() <= t < final(pairs)@.pairs.len() ==> pair_within(
                #[trigger] final(pairs)@.pairs[t],
                probe_minutiae@.len() as int,
                gallery_minutiae@.len() as int,
            ),
{
    if probe_edges.len() == 0 || gallery_edges.len() == 0 {
        assert(pairs@.pairs =~= pairs@.pairs.subrange(0, pairs@.pairs.len() as int));
        return ;
    }
    scalar_match_edges_into_pairs(
        config,
        probe_edges,
        probe_minutiae,
        gallery_edges,
        gallery_minutiae,
        pairs,
        calculate_points,
    )
}

} // verus!
