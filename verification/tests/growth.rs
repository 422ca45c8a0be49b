use bozorth::bozorth::{assign_cluster_to_endpoints, cleanup_selected, maybe_create_cluster, traverse_edges};
use bozorth::assigner::ClusterAssigner;
use bozorth::consts::set_max_number_of_groups;
use bozorth::types::{Endpoint, MinutiaKind};
use bozorth::{
    find_edges, limit_edges, match_edges_into_pairs, set_mode, BozorthState, Config, Format,
    Minutia, PairHolder,
};

fn random_minutiae(seed: u64, count: usize, size: u64) -> Vec<Minutia> {
    let mut state = seed;
    let mut next = move || {
        state = state.wrapping_mul(6364136223846793005).wrapping_add(1442695040888963407);
        state >> 33
    };
    let mut minutiae = Vec::new();
    for _ in 0..count {
        let x = (next() % size) as i32;
        let y = (next() % size) as i32;
        let theta = (next() % 360) as i32 - 179;
        let kind = if next() % 2 == 0 { MinutiaKind::Type0 } else { MinutiaKind::Type1 };
        minutiae.push(Minutia { x, y, theta, kind });
    }
    minutiae.sort_by_key(|m| (m.x, m.y));
    minutiae
}

fn pairs_of(config: &Config, probe: &[Minutia], gallery: &[Minutia]) -> PairHolder {
    let mut probe_edges = Vec::new();
    find_edges(config, probe, &mut probe_edges, Format::NistInternal);
    probe_edges.truncate(limit_edges(config, &probe_edges));
    let mut gallery_edges = Vec::new();
    find_edges(config, gallery, &mut gallery_edges, Format::NistInternal);
    gallery_edges.truncate(limit_edges(config, &gallery_edges));
    let mut pairs = PairHolder::new();
    match_edges_into_pairs(
        config,
        &probe_edges,
        probe,
        &gallery_edges,
        gallery,
        &mut pairs,
        |_: &Minutia, _: &Minutia, _: &Minutia, _: &Minutia| 1,
    );
    pairs.prepare();
    pairs
}

fn built(state: &BozorthState) -> Vec<(u32, Vec<u32>, usize, (i32, i32, i32, i32, i32))> {
    (0..state.clusters.len())
        .map(|i| {
            let averages = &state.clusters.averages[i];
            (
                state.clusters.similar[i].points,
                state.clusters.pairs[i].iter().take(6).copied().collect(),
                state.clusters.pairs[i].len(),
                (
                    averages.delta_theta,
                    averages.probe_x,
                    averages.probe_y,
                    averages.gallery_x,
                    averages.gallery_y,
                ),
            )
        })
        .collect()
}

#[test]
fn one_attempt_builds_the_cluster_around_a_seed() {
    let config = Config::new();
    let print = random_minutiae(1, 40, 300);
    let pairs = pairs_of(&config, &print, &print);
    assert_eq!(pairs.len(), 583);
    let mut state = BozorthState::new(&config);
    maybe_create_cluster(&config, &print, &print, &pairs, 0, &mut state);
    assert_eq!(built(&state), vec![(388, vec![0, 13, 26, 63, 64, 65], 388, (0, 162, 109, 162, 109))]);
    assert_eq!(state.len(), 10);
    let mut second = BozorthState::new(&config);
    maybe_create_cluster(&config, &print, &print, &pairs, 36, &mut second);
    assert_eq!(built(&second), vec![(346, vec![36, 37, 38, 54, 78, 99], 346, (0, 168, 109, 168, 109))]);
    assert_eq!(second.len(), 8);
    let mut third = BozorthState::new(&config);
    maybe_create_cluster(&config, &print, &print, &pairs, 62, &mut third);
    assert_eq!(built(&third), vec![]);
    assert_eq!(third.len(), 0);
}

#[test]
fn one_attempt_on_different_prints() {
    let config = Config::new();
    let probe = random_minutiae(1, 40, 300);
    let gallery = random_minutiae(2, 40, 300);
    let pairs = pairs_of(&config, &probe, &gallery);
    assert_eq!(pairs.len(), 102);
    let mut state = BozorthState::new(&config);
    maybe_create_cluster(&config, &probe, &gallery, &pairs, 0, &mut state);
    assert_eq!(built(&state), vec![]);
    maybe_create_cluster(&config, &probe, &gallery, &pairs, 36, &mut state);
    assert_eq!(built(&state), vec![(3, vec![36, 60, 100], 3, (-177, 200, 104, 200, 151))]);
    let mut other = BozorthState::new(&config);
    maybe_create_cluster(&config, &probe, &gallery, &pairs, 62, &mut other);
    assert_eq!(built(&other), vec![(3, vec![62, 63, 93], 3, (-40, 208, 78, 54, 204))]);
    maybe_create_cluster(&config, &probe, &gallery, &pairs, 100, &mut other);
    assert_eq!(other.clusters.len(), 1);
}

#[test]
fn traversal_gathers_groups_of_rival_partners() {
    let mut config = Config::new();
    let print = random_minutiae(1, 40, 300);
    let pairs = pairs_of(&config, &print, &print);
    let mut state = BozorthState::new(&config);
    traverse_edges(&config, &pairs, 0, 0, &mut state);
    assert_eq!(state.len(), 10);
    assert_eq!(state.clusters.len(), 0);
    let mut second = BozorthState::new(&config);
    traverse_edges(&config, &pairs, 36, 0, &mut second);
    assert_eq!(second.len(), 8);
    set_max_number_of_groups(&mut config, 0);
    let mut none = BozorthState::new(&config);
    traverse_edges(&config, &pairs, 0, 0, &mut none);
    assert_eq!(none.len(), 0);
}

#[test]
fn free_endpoints_are_linked_and_join_the_worklist() {
    let config = Config::new();
    let mut state = BozorthState::new(&config);
    let mut to_visit = Vec::new();
    assign_cluster_to_endpoints(&config, 0, 5, Endpoint(3), Endpoint(4), &mut state, &mut to_visit);
    assert_eq!(to_visit, vec![(Endpoint(3), Endpoint(4))]);
    assign_cluster_to_endpoints(&config, 0, 6, Endpoint(10), Endpoint(11), &mut state, &mut to_visit);
    assert_eq!(to_visit, vec![(Endpoint(3), Endpoint(4)), (Endpoint(10), Endpoint(11))]);
    assert_eq!(state.len(), 0);
}

#[test]
fn linked_endpoints_join_the_worklist_again_in_strict_mode() {
    let config = Config::new();
    let mut state = BozorthState::new(&config);
    let mut to_visit = Vec::new();
    assign_cluster_to_endpoints(&config, 0, 5, Endpoint(3), Endpoint(4), &mut state, &mut to_visit);
    assign_cluster_to_endpoints(&config, 0, 7, Endpoint(3), Endpoint(4), &mut state, &mut to_visit);
    assert_eq!(to_visit, vec![(Endpoint(3), Endpoint(4)); 2]);
    assign_cluster_to_endpoints(&config, 0, 7, Endpoint(3), Endpoint(4), &mut state, &mut to_visit);
    assert_eq!(to_visit.len(), 2);
    assign_cluster_to_endpoints(&config, 0, 3, Endpoint(3), Endpoint(4), &mut state, &mut to_visit);
    assert_eq!(to_visit.len(), 2);
    assign_cluster_to_endpoints(&config, 1, 7, Endpoint(3), Endpoint(4), &mut state, &mut to_visit);
    assert_eq!(to_visit.len(), 3);
    let mut relaxed = Config::new();
    set_mode(&mut relaxed, false);
    assign_cluster_to_endpoints(&relaxed, 0, 9, Endpoint(3), Endpoint(4), &mut state, &mut to_visit);
    assert_eq!(to_visit.len(), 3);
}

#[test]
fn rival_partners_make_groups() {
    let mut config = Config::new();
    let mut state = BozorthState::new(&config);
    let mut to_visit = Vec::new();
    assign_cluster_to_endpoints(&config, 0, 5, Endpoint(3), Endpoint(4), &mut state, &mut to_visit);
    assign_cluster_to_endpoints(&config, 0, 8, Endpoint(3), Endpoint(9), &mut state, &mut to_visit);
    assert_eq!(state.len(), 1);
    assign_cluster_to_endpoints(&config, 0, 8, Endpoint(3), Endpoint(10), &mut state, &mut to_visit);
    assert_eq!(state.len(), 1);
    assign_cluster_to_endpoints(&config, 0, 8, Endpoint(7), Endpoint(4), &mut state, &mut to_visit);
    assert_eq!(state.len(), 2);
    assign_cluster_to_endpoints(&config, 0, 8, Endpoint(4), Endpoint(3), &mut state, &mut to_visit);
    assert_eq!(state.len(), 2);
    assert_eq!(to_visit.len(), 2);
    set_max_number_of_groups(&mut config, 2);
    assign_cluster_to_endpoints(&config, 0, 8, Endpoint(4), Endpoint(9), &mut state, &mut to_visit);
    assert_eq!(state.len(), 2);
    set_max_number_of_groups(&mut config, 3);
    assign_cluster_to_endpoints(&config, 0, 8, Endpoint(4), Endpoint(9), &mut state, &mut to_visit);
    assert_eq!(state.len(), 3);
    state.clear();
    assert_eq!(state.len(), 0);
}

#[test]
fn pairs_that_leave_a_cluster_are_marked_in_strict_mode() {
    let config = Config::new();
    let mut assigner = ClusterAssigner::new();
    assigner.assign(1, 0);
    assigner.assign(2, 0);
    assigner.assign(3, 0);
    cleanup_selected(&config, &mut assigner, &vec![1, 3]);
    assert_eq!(assigner.get_cluster(1), Some(u32::MAX - 1));
    assert_eq!(assigner.get_cluster(2), Some(0));
    assert_eq!(assigner.get_cluster(3), Some(u32::MAX - 1));
    let mut relaxed = Config::new();
    set_mode(&mut relaxed, false);
    cleanup_selected(&relaxed, &mut assigner, &vec![1, 2]);
    assert_eq!(assigner.get_cluster(1), None);
    assert_eq!(assigner.get_cluster(2), None);
    assert_eq!(assigner.get_cluster(3), Some(u32::MAX - 1));
}
