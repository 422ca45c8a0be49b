use bozorth::match_edges::scalar_match_edges_into_pairs;
use bozorth::types::{Endpoint, MinutiaKind};
use bozorth::{
    find_edges, match_edges_into_pairs, set_mode, BetaOrder, Config, Edge, Format, Minutia, Pair,
    PairHolder,
};

fn minutia(x: i32, y: i32, theta: i32, kind: MinutiaKind) -> Minutia {
    Minutia { x, y, theta, kind }
}

fn small_print() -> Vec<Minutia> {
    vec![
        minutia(0, 0, 0, MinutiaKind::Type0),
        minutia(3, 4, 90, MinutiaKind::Type1),
        minutia(100, 0, 180, MinutiaKind::Type0),
        minutia(200, 0, 10, MinutiaKind::Type1),
    ]
}

fn edges_of(config: &Config, print: &[Minutia]) -> Vec<Edge> {
    let mut edges = Vec::new();
    find_edges(config, print, &mut edges, Format::NistInternal);
    edges
}

fn fields(pair: &Pair) -> (i32, u32, u32, u32, u32, u32) {
    (pair.delta_theta, pair.probe_k.0, pair.probe_j.0, pair.gallery_k.0, pair.gallery_j.0, pair.points)
}

fn one(_: &Minutia, _: &Minutia, _: &Minutia, _: &Minutia) -> u32 {
    1
}

#[test]
fn strict_mode_leaves_the_last_probe_edge_out() {
    let config = Config::new();
    let print = small_print();
    let edges = edges_of(&config, &print);
    let mut pairs = PairHolder::new();
    match_edges_into_pairs(&config, &edges, &print, &edges, &print, &mut pairs, one);
    let found: Vec<_> = pairs.pairs().iter().map(fields).collect();
    assert_eq!(found, vec![(0, 0, 1, 0, 1, 1), (0, 1, 2, 1, 2, 1)]);
}

#[test]
fn relaxed_mode_takes_every_probe_edge() {
    let mut config = Config::new();
    set_mode(&mut config, false);
    let print = small_print();
    let edges = edges_of(&config, &print);
    let mut pairs = PairHolder::new();
    match_edges_into_pairs(&config, &edges, &print, &edges, &print, &mut pairs, one);
    let found: Vec<_> = pairs.pairs().iter().map(fields).collect();
    assert_eq!(
        found,
        vec![(0, 0, 1, 0, 1, 1), (0, 1, 2, 1, 2, 1), (0, 2, 3, 2, 3, 1)]
    );
}

#[test]
fn no_edges_on_either_side_give_no_pairs() {
    let config = Config::new();
    let print = small_print();
    let edges = edges_of(&config, &print);
    let mut pairs = PairHolder::new();
    match_edges_into_pairs(&config, &[], &print, &edges, &print, &mut pairs, one);
    assert!(pairs.is_empty());
    match_edges_into_pairs(&config, &edges, &print, &[], &print, &mut pairs, one);
    assert!(pairs.is_empty());
}

#[test]
fn points_come_from_the_four_minutiae_of_the_two_edges() {
    let config = Config::new();
    let print = small_print();
    let edges = edges_of(&config, &print);
    let mut pairs = PairHolder::new();
    match_edges_into_pairs(
        &config,
        &edges,
        &print,
        &edges,
        &print,
        &mut pairs,
        |pk: &Minutia, pj: &Minutia, gk: &Minutia, gj: &Minutia| {
            (pk.x + 10 * pj.x + 1000 * gk.x + 100000 * gj.x) as u32
        },
    );
    let points: Vec<u32> = pairs.pairs().iter().map(|pair| pair.points).collect();
    assert_eq!(points, vec![0 + 30 + 0 + 300000, 3 + 1000 + 3000 + 10000000]);
}

#[test]
fn kinds_that_agree_give_more_points() {
    let config = Config::new();
    let probe = small_print();
    let mut gallery = small_print();
    gallery[1].kind = MinutiaKind::Type0;
    let probe_edges = edges_of(&config, &probe);
    let gallery_edges = edges_of(&config, &gallery);
    let mut pairs = PairHolder::new();
    match_edges_into_pairs(
        &config,
        &probe_edges,
        &probe,
        &gallery_edges,
        &gallery,
        &mut pairs,
        |pk: &Minutia, pj: &Minutia, gk: &Minutia, gj: &Minutia| match (
            pk.kind == gk.kind,
            pj.kind == gj.kind,
        ) {
            (true, true) => 4,
            (true, false) | (false, true) => 3,
            (false, false) => 2,
        },
    );
    let points: Vec<u32> = pairs.pairs().iter().map(|pair| pair.points).collect();
    assert_eq!(points, vec![3, 3]);
}

fn edge(distance_squared: i32, min_beta: i32, max_beta: i32, k: u32, j: u32, theta_kj: i32, beta_order: BetaOrder) -> Edge {
    Edge {
        distance_squared,
        min_beta,
        max_beta,
        endpoint_k: Endpoint(k),
        endpoint_j: Endpoint(j),
        theta_kj,
        beta_order,
    }
}

#[test]
fn edges_of_different_order_swap_the_gallery_endpoints() {
    let mut config = Config::new();
    set_mode(&mut config, false);
    let print = small_print();
    let probe = vec![edge(100, 10, 20, 0, 1, 30, BetaOrder::KJ)];
    let gallery = vec![edge(100, 10, 20, 2, 3, 100, BetaOrder::JK)];
    let mut pairs = PairHolder::new();
    scalar_match_edges_into_pairs(
        &config,
        &probe,
        &print,
        &gallery,
        &print,
        &mut pairs,
        |_pk: &Minutia, _pj: &Minutia, gk: &Minutia, gj: &Minutia| (gk.x * 1000 + gj.x) as u32,
    );
    let found: Vec<_> = pairs.pairs().iter().map(fields).collect();
    assert_eq!(found, vec![(110, 0, 1, 3, 2, 100200)]);
}

#[test]
fn length_tolerance_is_a_tenth_of_the_sum_of_the_lengths() {
    let mut config = Config::new();
    set_mode(&mut config, false);
    let print = small_print();
    let probe = vec![edge(10000, 10, 20, 0, 1, 0, BetaOrder::KJ)];
    let gallery = vec![
        edge(8181, 10, 20, 0, 1, 1, BetaOrder::KJ),
        edge(8182, 10, 20, 0, 1, 2, BetaOrder::KJ),
        edge(12222, 10, 20, 0, 1, 3, BetaOrder::KJ),
        edge(12223, 10, 20, 0, 1, 4, BetaOrder::KJ),
    ];
    let mut pairs = PairHolder::new();
    match_edges_into_pairs(&config, &probe, &print, &gallery, &print, &mut pairs, one);
    let rotations: Vec<i32> = pairs.pairs().iter().map(|pair| pair.delta_theta).collect();
    assert_eq!(rotations, vec![-2, -3]);
}

#[test]
fn factor_widens_the_length_tolerance() {
    let mut config = Config::new();
    set_mode(&mut config, false);
    bozorth::consts::set_factor_fraction(&mut config, 3, 40);
    let print = small_print();
    let probe = vec![edge(10000, 10, 20, 0, 1, 0, BetaOrder::KJ)];
    let gallery = vec![
        edge(7391, 10, 20, 0, 1, 1, BetaOrder::KJ),
        edge(7392, 10, 20, 0, 1, 2, BetaOrder::KJ),
        edge(13529, 10, 20, 0, 1, 3, BetaOrder::KJ),
        edge(13530, 10, 20, 0, 1, 4, BetaOrder::KJ),
    ];
    let mut pairs = PairHolder::new();
    match_edges_into_pairs(&config, &probe, &print, &gallery, &print, &mut pairs, one);
    let rotations: Vec<i32> = pairs.pairs().iter().map(|pair| pair.delta_theta).collect();
    assert_eq!(rotations, vec![-2, -3]);
}

#[test]
fn angles_must_match_on_both_ends() {
    let mut config = Config::new();
    set_mode(&mut config, false);
    let print = small_print();
    let probe = vec![edge(100, 0, 100, 0, 1, 0, BetaOrder::KJ)];
    let gallery = vec![
        edge(100, 11, 100, 0, 1, 1, BetaOrder::KJ),
        edge(100, 12, 100, 0, 1, 2, BetaOrder::KJ),
        edge(100, 0, 112, 0, 1, 3, BetaOrder::KJ),
        edge(100, -11, 89, 0, 1, 4, BetaOrder::KJ),
    ];
    let mut pairs = PairHolder::new();
    match_edges_into_pairs(&config, &probe, &print, &gallery, &print, &mut pairs, one);
    let rotations: Vec<i32> = pairs.pairs().iter().map(|pair| pair.delta_theta).collect();
    assert_eq!(rotations, vec![-1, -4]);
}

#[test]
fn gallery_edges_that_are_too_short_are_left_behind_for_good() {
    let mut config = Config::new();
    set_mode(&mut config, false);
    let print = small_print();
    let probe = vec![
        edge(1000, 0, 0, 0, 1, 0, BetaOrder::KJ),
        edge(1000, 0, 0, 1, 2, 0, BetaOrder::KJ),
    ];
    let gallery = vec![
        edge(100, 0, 0, 0, 1, 0, BetaOrder::KJ),
        edge(1000, 0, 0, 1, 2, 0, BetaOrder::KJ),
        edge(5000, 0, 0, 2, 3, 0, BetaOrder::KJ),
        edge(1000, 0, 0, 0, 3, 0, BetaOrder::KJ),
    ];
    let mut pairs = PairHolder::new();
    match_edges_into_pairs(&config, &probe, &print, &gallery, &print, &mut pairs, one);
    let found: Vec<_> = pairs.pairs().iter().map(|pair| (pair.probe_k.0, pair.gallery_k.0)).collect();
    assert_eq!(found, vec![(0, 1), (1, 1)]);
}

#[test]
fn pairs_are_appended_to_those_already_held() {
    let config = Config::new();
    let print = small_print();
    let edges = edges_of(&config, &print);
    let mut pairs = PairHolder::new();
    match_edges_into_pairs(&config, &edges, &print, &edges, &print, &mut pairs, one);
    match_edges_into_pairs(&config, &edges, &print, &edges, &print, &mut pairs, one);
    assert_eq!(pairs.len(), 4);
}

#[test]
fn a_full_holder_takes_no_more_pairs() {
    let mut config = Config::new();
    set_mode(&mut config, false);
    let print = small_print();
    let probe: Vec<Edge> = (0..150).map(|_| edge(100, 0, 0, 0, 1, 0, BetaOrder::KJ)).collect();
    let mut pairs = PairHolder::new();
    match_edges_into_pairs(&config, &probe, &print, &probe, &print, &mut pairs, one);
    assert_eq!(pairs.len(), 20000);
    match_edges_into_pairs(&config, &probe, &print, &probe, &print, &mut pairs, one);
    assert_eq!(pairs.len(), 20000);
}
