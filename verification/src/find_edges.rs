//! The edges of one print: pairs of its minutiae that are near enough, each
//! with the angles that are compared across prints.

use vstd::prelude::*;
use crate::consts::{Config, MAX_DISTANCE_LIMIT, MAX_NUMBER_OF_EDGES, MAX_NUMBER_OF_MINUTIAE};
use crate::math::{
    are_angles_opposite, atan2_round_degree, normalize_wide, spec_are_angles_opposite,
    spec_atan2_round_degree, spec_normalize_angle,
};
use crate::sorting::{edge_key, is_sorted_by, is_stable_sort, sort_edges};
use crate::types::{BetaOrder, Edge, Endpoint, Format, Minutia};

verus! {

/// The squared distance between two minutiae.
pub open spec fn distance_squared(first: Minutia, second: Minutia) -> int {
    (second.x - first.x) * (second.x - first.x) + (second.y - first.y) * (second.y - first.y)
}

/// Whether two minutiae are too far apart for an edge.
pub open spec fn too_far(config: Config, first: Minutia, second: Minutia) -> bool {
    distance_squared(first, second) > config.max_minutia_distance * config.max_minutia_distance
}

/// The edge between the minutiae at the places `k` and `j` of a print.
///
/// Its direction is that of the line from the first to the second minutia,
/// with the y axis mirrored in the ANSI format. Each of the two angles is
/// the turn from the orientation of one minutia to that direction, for the
/// second minutia to the direction reversed; the smaller comes first, and
/// the order records which minutia it belongs to.
pub open spec fn edge_between(minutiae: Seq<Minutia>, format: Format, k: int, j: int) -> Edge {
    let first = minutiae[k];
    let second = minutiae[j];
    let dx = second.x - first.x;
    let dy = second.y - first.y;
    let theta_kj = spec_atan2_round_degree(
        dx,
        match format {
            Format::NistInternal => dy,
            Format::Ansi => -dy,
        },
    );
    let beta_k = spec_normalize_angle(theta_kj - first.theta);
    let beta_j = spec_normalize_angle(theta_kj - second.theta + 180);
    Edge {
        distance_squared: distance_squared(first, second) as i32,
        min_beta: (if beta_k < beta_j { beta_k } else { beta_j }) as i32,
        max_beta: (if beta_k < beta_j { beta_j } else { beta_k }) as i32,
        endpoint_k: Endpoint(k as u32),
        endpoint_j: Endpoint(j as u32),
        theta_kj: theta_kj as i32,
        beta_order: if beta_k < beta_j {
            BetaOrder::KJ
        } else {
            BetaOrder::JK
        },
    }
}

/// The edges that the scan of a print still finds from the minutiae at `k`
/// and `j` on, behind those `found` already, with `room` telling how many
/// edges there may be in all.
///
/// Every minutia is taken with every minutia behind it. Two minutiae with
/// opposite orientations give no edge, nor do two that are too far apart;
/// where the second is too far to the right already, the scan goes on with
/// the next first minutia. It ends for good when the edges found fill the
/// room.
pub open spec fn scan_edges(
    config: Config,
    minutiae: Seq<Minutia>,
    format: Format,
    k: int,
    j: int,
    found: Seq<Edge>,
    room: int,
) -> Seq<Edge>
    decreases minutiae.len() - k, minutiae.len() - j,
{
    if k < 0 || j <= k || k >= minutiae.len() - 1 {
        found
    } else if j >= minutiae.len() {
        scan_edges(config, minutiae, format, k + 1, k + 2, found, room)
    } else if spec_are_angles_opposite(minutiae[k].theta as int, minutiae[j].theta as int) {
        scan_edges(config, minutiae, format, k, j + 1, found, room)
    } else if too_far(config, minutiae[k], minutiae[j]) {
        if minutiae[j].x - minutiae[k].x > config.max_minutia_distance {
            scan_edges(config, minutiae, format, k + 1, k + 2, found, room)
        } else {
            scan_edges(config, minutiae, format, k, j + 1, found, room)
        }
    } else {
        let longer = found.push(edge_between(minutiae, format, k, j));
        if longer.len() == room {
            longer
        } else {
            scan_edges(config, minutiae, format, k, j + 1, longer, room)
        }
    }
}

/// The edges that a print yields when as many as `existing` edges are there
/// already, in the order in which the scan finds them.
pub open spec fn found_edges(
    config: Config,
    minutiae: Seq<Minutia>,
    format: Format,
    existing: int,
) -> Seq<Edge> {
    scan_edges(config, minutiae, format, 0, 1, Seq::empty(), MAX_NUMBER_OF_EDGES - 1 - existing)
}

/// Whether an edge is one of a print of `count` minutiae: its angles are in
/// normal form and in order, its direction is a whole degree of the turn,
/// its length is not negative, and its endpoints are two places of the
/// print, the first before the second.
pub open spec fn edge_sound(edge: Edge, count: int) -> bool {
    &&& edge.betas_ordered()
    &&& -180 <= edge.theta_kj <= 180
    &&& 0 <= edge.distance_squared
    &&& edge.endpoint_k.0 < edge.endpoint_j.0 < count
}

/// Whether every edge is one of a print of `count` minutiae.
pub open spec fn edges_sound(edges: Seq<Edge>, count: int) -> bool {
    forall|i: int| 0 <= i < edges.len() ==> edge_sound(#[trigger] edges[i], count)
}

/// The squares of two differences of which one exceeds the limit exceed the
/// square of the limit together.
proof fn lemma_far_component(dx: int, dy: int, limit: int)
    requires
        0 <= limit,
        dx > limit || dx < -limit || dy > limit || dy < -limit,
    ensures
        dx * dx + dy * dy > limit * limit,
{
    assert(dx * dx + dy * dy > limit * limit) by (nonlinear_arith)
        requires
            0 <= limit,
            dx > limit || dx < -limit || dy > limit || dy < -limit,
    ;
}

/// An edge between two minutiae that are not too far apart is sound.
pub proof fn lemma_edge_between(
    config: Config,
    minutiae: Seq<Minutia>,
    format: Format,
    k: int,
    j: int,
)
    requires
        config.wf(),
        0 <= k < j < minutiae.len() <= MAX_NUMBER_OF_MINUTIAE,
        !too_far(config, minutiae[k], minutiae[j]),
    ensures
        edge_sound(edge_between(minutiae, format, k, j), minutiae.len() as int),
        edge_between(minutiae, format, k, j).distance_squared == distance_squared(
            minutiae[k],
            minutiae[j],
        ),
{
    let first = minutiae[k];
    let second = minutiae[j];
    let dx = second.x - first.x;
    let dy = second.y - first.y;
    let limit = config.max_minutia_distance as int;
    assert(0 <= dx * dx && 0 <= dy * dy) by (nonlinear_arith);
    assert(limit * limit <= MAX_DISTANCE_LIMIT * MAX_DISTANCE_LIMIT) by (nonlinear_arith)
        requires
            0 <= limit <= MAX_DISTANCE_LIMIT,
    ;
    crate::slope::lemma_direction_degree_bounds(dx, dy);
    crate::slope::lemma_direction_degree_bounds(dx, -dy);
}

/// Every edge that the scan finds is sound if those found before are.
pub proof fn lemma_scan_edges(
    config: Config,
    minutiae: Seq<Minutia>,
    format: Format,
    k: int,
    j: int,
    found: Seq<Edge>,
    room: int,
)
    requires
        config.wf(),
        minutiae.len() <= MAX_NUMBER_OF_MINUTIAE,
        edges_sound(found, minutiae.len() as int),
    ensures
        edges_sound(
            scan_edges(config, minutiae, format, k, j, found, room),
            minutiae.len() as int,
        ),
    decreases minutiae.len() - k, minutiae.len() - j,
{
    if k < 0 || j <= k || k >= minutiae.len() - 1 {
    } else if j >= minutiae.len() {
        lemma_scan_edges(config, minutiae, format, k + 1, k + 2, found, room);
    } else if spec_are_angles_opposite(minutiae[k].theta as int, minutiae[j].theta as int) {
        lemma_scan_edges(config, minutiae, format, k, j + 1, found, room);
    } else if too_far(config, minutiae[k], minutiae[j]) {
        if minutiae[j].x - minutiae[k].x > config.max_minutia_distance {
            lemma_scan_edges(config, minutiae, format, k + 1, k + 2, found, room);
        } else {
            lemma_scan_edges(config, minutiae, format, k, j + 1, found, room);
        }
    } else {
        lemma_edge_between(config, minutiae, format, k, j);
        let longer = found.push(edge_between(minutiae, format, k, j));
        assert forall|i: int| 0 <= i < longer.len() implies edge_sound(
            #[trigger] longer[i],
            minutiae.len() as int,
        ) by {
            if i < found.len() {
                assert(edge_sound(found[i], minutiae.len() as int));
            }
        }
        if longer.len() != room {
            lemma_scan_edges(config, minutiae, format, k, j + 1, longer, room);
        }
    }
}

/// Whether the minutiae stand in order from left to right.
pub open spec fn sorted_by_x(minutiae: Seq<Minutia>) -> bool {
    forall|a: int, b: int| 0 <= a < b < minutiae.len() ==> minutiae[a].x <= minutiae[b].x
}

/// Whether the minutiae at the places `k` and `j` make an edge: the first
/// stands before the second, their orientations are not opposite, and they
/// are not too far apart.
pub open spec fn makes_edge(config: Config, minutiae: Seq<Minutia>, k: int, j: int) -> bool {
    &&& 0 <= k < j < minutiae.len()
    &&& !spec_are_angles_opposite(minutiae[k].theta as int, minutiae[j].theta as int)
    &&& !too_far(config, minutiae[k], minutiae[j])
}

/// Whether `edge` is the edge of two minutiae of the print that make one.
pub open spec fn is_edge_of(
    config: Config,
    minutiae: Seq<Minutia>,
    format: Format,
    edge: Edge,
) -> bool {
    exists|first: int, second: int|
        #[trigger] makes_edge(config, minutiae, first, second) && edge == edge_between(
            minutiae,
            format,
            first,
            second,
        )
}

/// The scan keeps the edges found before, in their order.
pub proof fn lemma_scan_keeps_found(
    config: Config,
    minutiae: Seq<Minutia>,
    format: Format,
    k: int,
    j: int,
    found: Seq<Edge>,
    room: int,
)
    ensures
        found.is_prefix_of(scan_edges(config, minutiae, format, k, j, found, room)),
    decreases minutiae.len() - k, minutiae.len() - j,
{
    let all = scan_edges(config, minutiae, format, k, j, found, room);
    if k < 0 || j <= k || k >= minutiae.len() - 1 {
        assert(found =~= all.subrange(0, found.len() as int));
    } else if j >= minutiae.len() {
        lemma_scan_keeps_found(config, minutiae, format, k + 1, k + 2, found, room);
    } else if spec_are_angles_opposite(minutiae[k].theta as int, minutiae[j].theta as int) {
        lemma_scan_keeps_found(config, minutiae, format, k, j + 1, found, room);
    } else if too_far(config, minutiae[k], minutiae[j]) {
        if minutiae[j].x - minutiae[k].x > config.max_minutia_distance {
            lemma_scan_keeps_found(config, minutiae, format, k + 1, k + 2, found, room);
        } else {
            lemma_scan_keeps_found(config, minutiae, format, k, j + 1, found, room);
        }
    } else {
        let longer = found.push(edge_between(minutiae, format, k, j));
        if longer.len() != room {
            lemma_scan_keeps_found(config, minutiae, format, k, j + 1, longer, room);
            assert(longer == all.subrange(0, longer.len() as int));
        }
        assert(found =~= all.subrange(0, found.len() as int)) by {
            assert(found =~= longer.subrange(0, found.len() as int));
        }
    }
}

/// Minutiae that stand too far to the right of each other are too far
/// apart.
proof fn lemma_far_to_the_right(config: Config, first: Minutia, second: Minutia)
    requires
        config.wf(),
        second.x - first.x > config.max_minutia_distance,
    ensures
        too_far(config, first, second),
{
    let dx = second.x - first.x;
    let dy = second.y - first.y;
    let limit = config.max_minutia_distance as int;
    assert(dx * dx + dy * dy > limit * limit) by (nonlinear_arith)
        requires
            0 <= limit < dx,
    ;
}

/// In a print that is in order from left to right, the scan finds the edge
/// of every two minutiae that make one and that it has not passed yet,
/// unless it ends because the list is full.
pub proof fn lemma_scan_finds_every_edge(
    config: Config,
    minutiae: Seq<Minutia>,
    format: Format,
    k: int,
    j: int,
    found: Seq<Edge>,
    room: int,
    first: int,
    second: int,
)
    requires
        config.wf(),
        sorted_by_x(minutiae),
        makes_edge(config, minutiae, first, second),
        0 <= k < j,
        first > k || (first == k && second >= j),
    ensures
        scan_edges(config, minutiae, format, k, j, found, room).contains(
            edge_between(minutiae, format, first, second),
        ) || scan_edges(config, minutiae, format, k, j, found, room).len() == room,
    decreases minutiae.len() - k, minutiae.len() - j,
{
    let all = scan_edges(config, minutiae, format, k, j, found, room);
    if k >= minutiae.len() - 1 {
    } else if j >= minutiae.len() {
        lemma_scan_finds_every_edge(
            config,
            minutiae,
            format,
            k + 1,
            k + 2,
            found,
            room,
            first,
            second,
        );
    } else if spec_are_angles_opposite(minutiae[k].theta as int, minutiae[j].theta as int) {
        lemma_scan_finds_every_edge(
            config,
            minutiae,
            format,
            k,
            j + 1,
            found,
            room,
            first,
            second,
        );
    } else if too_far(config, minutiae[k], minutiae[j]) {
        if minutiae[j].x - minutiae[k].x > config.max_minutia_distance {
            if first == k {
                assert(minutiae[j].x <= minutiae[second].x);
                lemma_far_to_the_right(config, minutiae[first], minutiae[second]);
            }
            lemma_scan_finds_every_edge(
                config,
                minutiae,
                format,
                k + 1,
                k + 2,
                found,
                room,
                first,
                second,
            );
        } else {
            lemma_scan_finds_every_edge(
                config,
                minutiae,
                format,
                k,
                j + 1,
                found,
                room,
                first,
                second,
            );
        }
    } else {
        let longer = found.push(edge_between(minutiae, format, k, j));
        if longer.len() != room {
            if first == k && second == j {
                lemma_scan_keeps_found(config, minutiae, format, k, j + 1, longer, room);
                assert(all[found.len() as int] == longer[found.len() as int]);
            } else {
                lemma_scan_finds_every_edge(
                    config,
                    minutiae,
                    format,
                    k,
                    j + 1,
                    longer,
                    room,
                    first,
                    second,
                );
            }
        }
    }
}

/// Every edge that the scan finds is the edge of two minutiae that make
/// one.
pub proof fn lemma_scan_finds_only_edges(
    config: Config,
    minutiae: Seq<Minutia>,
    format: Format,
    k: int,
    j: int,
    found: Seq<Edge>,
    room: int,
)
    ensures
        forall|i: int|
            found.len() <= i < scan_edges(config, minutiae, format, k, j, found, room).len()
                ==> is_edge_of(
                config,
                minutiae,
                format,
                #[trigger] scan_edges(config, minutiae, format, k, j, found, room)[i],
            ),
    decreases minutiae.len() - k, minutiae.len() - j,
{
    let all = scan_edges(config, minutiae, format, k, j, found, room);
    if k < 0 || j <= k || k >= minutiae.len() - 1 {
        assert(all == found);
    } else if j >= minutiae.len() {
        lemma_scan_finds_only_edges(config, minutiae, format, k + 1, k + 2, found, room);
        assert(all == scan_edges(config, minutiae, format, k + 1, k + 2, found, room));
    } else if spec_are_angles_opposite(minutiae[k].theta as int, minutiae[j].theta as int) {
        lemma_scan_finds_only_edges(config, minutiae, format, k, j + 1, found, room);
        assert(all == scan_edges(config, minutiae, format, k, j + 1, found, room));
    } else if too_far(config, minutiae[k], minutiae[j]) {
        if minutiae[j].x - minutiae[k].x > config.max_minutia_distance {
            lemma_scan_finds_only_edges(config, minutiae, format, k + 1, k + 2, found, room);
            assert(all == scan_edges(config, minutiae, format, k + 1, k + 2, found, room));
        } else {
            lemma_scan_finds_only_edges(config, minutiae, format, k, j + 1, found, room);
            assert(all == scan_edges(config, minutiae, format, k, j + 1, found, room));
        }
    } else {
        let edge = edge_between(minutiae, format, k, j);
        let longer = found.push(edge);
        assert(makes_edge(config, minutiae, k, j));
        assert(is_edge_of(config, minutiae, format, edge));
        if longer.len() != room {
            let rest = scan_edges(config, minutiae, format, k, j + 1, longer, room);
            assert(all == rest);
            lemma_scan_finds_only_edges(config, minutiae, format, k, j + 1, longer, room);
            lemma_scan_keeps_found(config, minutiae, format, k, j + 1, longer, room);
            assert(rest[found.len() as int] == longer[found.len() as int]);
            assert forall|i: int| found.len() <= i < all.len() implies is_edge_of(
                config,
                minutiae,
                format,
                #[trigger] all[i],
            ) by {
                if i == found.len() {
                    assert(all[i] == edge);
                } else {
                    assert(is_edge_of(config, minutiae, format, rest[i]));
                }
            }
        } else {
            assert(all == longer);
            assert forall|i: int| found.len() <= i < all.len() implies is_edge_of(
                config,
                minutiae,
                format,
                #[trigger] all[i],
            ) by {
                assert(all[i] == edge);
            }
        }
    }
}

/// Builds the edge between the minutiae at the places `k` and `j`.
fn make_edge(minutiae: &[Minutia], format: Format, k: usize, j: usize, distance_squared: i32) -> (edge:
    Edge)
    requires
        k < j < minutiae@.len() <= MAX_NUMBER_OF_MINUTIAE,
        distance_squared == self::distance_squared(minutiae@[k as int], minutiae@[j as int]),
        -MAX_DISTANCE_LIMIT <= minutiae@[j as int].x - minutiae@[k as int].x <= MAX_DISTANCE_LIMIT,
        -MAX_DISTANCE_LIMIT <= minutiae@[j as int].y - minutiae@[k as int].y <= MAX_DISTANCE_LIMIT,
    ensures
        edge == edge_between(minutiae@, format, k as int, j as int),
{
    let dx: i32 = minutiae[j].x - minutiae[k].x;
    let dy: i32 = minutiae[j].y - minutiae[k].y;
    let theta_kj: i32 = atan2_round_degree(
        dx,
        match format {
            Format::NistInternal => dy,
            Format::Ansi => -dy,
        },
    );
    let beta_k: i32 = normalize_wide(theta_kj as i64 - minutiae[k].theta as i64);
    let beta_j: i32 = normalize_wide(theta_kj as i64 - minutiae[j].theta as i64 + 180);
    let (min_beta, max_beta, beta_order): (i32, i32, BetaOrder) = if beta_k < beta_j {
        (beta_k, beta_j, BetaOrder::KJ)
    } else {
        (beta_j, beta_k, BetaOrder::JK)
    };
    Edge {
        distance_squared,
        min_beta,
        max_beta,
        endpoint_k: Endpoint(k as u32),
        endpoint_j: Endpoint(j as u32),
        theta_kj,
        beta_order,
    }
}

/// The squared distance between two minutiae where they are near enough for
/// an edge, and `None` where they are too far apart.
fn near_distance(config: &Config, first: &Minutia, second: &Minutia) -> (distance: Option<i32>)
    requires
        config.wf(),
    ensures
        match distance {
            Some(squared) => {
                &&& !too_far(*config, *first, *second)
                &&& squared == distance_squared(*first, *second)
                &&& -MAX_DISTANCE_LIMIT <= second.x - first.x <= MAX_DISTANCE_LIMIT
                &&& -MAX_DISTANCE_LIMIT <= second.y - first.y <= MAX_DISTANCE_LIMIT
            },
            None => too_far(*config, *first, *second),
        },
{
    let dx: i64 = second.x as i64 - first.x as i64;
    let dy: i64 = second.y as i64 - first.y as i64;
    let limit: i64 = config.max_minutia_distance as i64;
    if dx > limit || dx < -limit || dy > limit || dy < -limit {
        proof {
            lemma_far_component(dx as int, dy as int, limit as int);
        }
        return None;
    }
    assert(0 <= dx * dx <= MAX_DISTANCE_LIMIT * MAX_DISTANCE_LIMIT) by (nonlinear_arith)
        requires
            -MAX_DISTANCE_LIMIT <= dx <= MAX_DISTANCE_LIMIT,
    ;
    assert(0 <= dy * dy <= MAX_DISTANCE_LIMIT * MAX_DISTANCE_LIMIT) by (nonlinear_arith)
        requires
            -MAX_DISTANCE_LIMIT <= dy <= MAX_DISTANCE_LIMIT,
    ;
    assert(0 <= limit * limit <= MAX_DISTANCE_LIMIT * MAX_DISTANCE_LIMIT) by (nonlinear_arith)
        requires
            0 <= limit <= MAX_DISTANCE_LIMIT,
    ;
    let squared: i64 = dx * dx + dy * dy;
    if squared > limit * limit {
        None
    } else {
        Some(squared as i32)
    }
}

/// Finds the edges of a print, appends them to `edges` and sorts all of
/// `edges` by length and angles, edges of equal keys staying in their
/// order.
pub fn find_edges(config: &Config, minutiae: &[Minutia], edges: &mut Vec<Edge>, format: Format)
    requires
        config.wf(),
        0 < minutiae@.len() <= MAX_NUMBER_OF_MINUTIAE,
    ensures
        exists|order: Seq<int>|
            is_stable_sort(
                final(edges)@,
                old(edges)@ + found_edges(*config, minutiae@, format, old(edges)@.len() as int),
                order,
                edge_key(),
            ),
        is_sorted_by(final(edges)@, edge_key()),
        edges_sound(old(edges)@, minutiae@.len() as int) ==> edges_sound(
            final(edges)@,
            minutiae@.len() as int,
        ),
{
    let ghost existing = edges@;
    let ghost room = MAX_NUMBER_OF_EDGES - 1 - existing.len();
    let ghost target = found_edges(*config, minutiae@, format, existing.len() as int);
    let ghost mut found: Seq<Edge> = Seq::empty();
    let count: usize = minutiae.len();
    let mut k: usize = 0;
    let mut done: bool = false;
    proof {
        assert(edges@ =~= existing + found);
    }
    while !done && k + 1 < count
        invariant
            config.wf(),
            count == minutiae@.len(),
            0 < count <= MAX_NUMBER_OF_MINUTIAE,
            k < count,
            existing == old(edges)@,
            room == MAX_NUMBER_OF_EDGES - 1 - existing.len(),
            edges@ == existing + found,
            target == if done {
                found
            } else {
                scan_edges(*config, minutiae@, format, k as int, k + 1, found, room)
            },
        decreases count - k + if done { 0int } else { 1int },
    {
        let mut j: usize = k + 1;
        let mut next: bool = false;
        while !done && !next && j < count
            invariant
                config.wf(),
                count == minutiae@.len(),
                0 < count <= MAX_NUMBER_OF_MINUTIAE,
                k + 1 < count,
                k < j <= count,
                existing == old(edges)@,
                room == MAX_NUMBER_OF_EDGES - 1 - existing.len(),
                edges@ == existing + found,
                target == if done {
                    found
                } else if next {
                    scan_edges(*config, minutiae@, format, k + 1, k + 2, found, room)
                } else {
                    scan_edges(*config, minutiae@, format, k as int, j as int, found, room)
                },
            decreases count - j + if done || next { 0int } else { 1int },
        {
            if are_angles_opposite(minutiae[k].theta, minutiae[j].theta) {
                j = j + 1;
                continue ;
            }
            match near_distance(config, &minutiae[k], &minutiae[j]) {
                None => {
                    if minutiae[j].x as i64 - minutiae[k].x as i64
                        > config.max_minutia_distance as i64 {
                        next = true;
                    } else {
                        j = j + 1;
                    }
                },
                Some(distance_squared) => {
                    let edge = make_edge(minutiae, format, k, j, distance_squared);
                    edges.push(edge);
                    proof {
                        found = found.push(edge);
                        assert(edges@ =~= existing + found);
                    }
                    if edges.len() == MAX_NUMBER_OF_EDGES - 1 {
                        done = true;
                    } else {
                        j = j + 1;
                    }
                },
            }
        }
        if !done {
            k = k + 1;
        }
    }
    proof {
        lemma_scan_edges(*config, minutiae@, format, 0, 1, Seq::empty(), room);
    }
    let ghost unsorted = edges@;
    sort_edges(edges);
    proof {
        let order = choose|order: Seq<int>| is_stable_sort(edges@, unsorted, order, edge_key());
        if edges_sound(existing, count as int) {
            assert forall|i: int| 0 <= i < edges@.len() implies edge_sound(
                #[trigger] edges@[i],
                count as int,
            ) by {
                let source = order[i];
                assert(edges@[i] == unsorted[source]);
                if source < existing.len() {
                    assert(edge_sound(existing[source], count as int));
                } else {
                    assert(edge_sound(target[source - existing.len()], count as int));
                }
            }
        }
    }
}

} // verus!
