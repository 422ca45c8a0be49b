use bozorth::consts::set_max_minutia_distance;
use bozorth::types::{Endpoint, MinutiaKind};
use bozorth::utils::limit_edges_by_length;
use bozorth::{find_edges, limit_edges, BetaOrder, Config, Edge, Format, Minutia};

fn minutia(x: i32, y: i32, theta: i32) -> Minutia {
    Minutia { x, y, theta, kind: MinutiaKind::Type0 }
}

fn small_print() -> Vec<Minutia> {
    vec![minutia(0, 0, 0), minutia(3, 4, 90), minutia(100, 0, 180), minutia(200, 0, 10)]
}

fn fields(edge: &Edge) -> (i32, i32, i32, u32, u32, i32, BetaOrder) {
    (
        edge.distance_squared,
        edge.min_beta,
        edge.max_beta,
        edge.endpoint_k.0,
        edge.endpoint_j.0,
        edge.theta_kj,
        edge.beta_order,
    )
}

#[test]
fn edges_of_a_small_print() {
    let config = Config::new();
    let mut edges = Vec::new();
    find_edges(&config, &small_print(), &mut edges, Format::NistInternal);
    let found: Vec<_> = edges.iter().map(fields).collect();
    assert_eq!(
        found,
        vec![
            (25, 53, 143, 0, 1, 53, BetaOrder::KJ),
            (9425, -92, -2, 1, 2, -2, BetaOrder::KJ),
            (10000, 170, 180, 2, 3, 0, BetaOrder::JK),
        ]
    );
}

#[test]
fn ansi_mirrors_the_y_axis() {
    let config = Config::new();
    let mut edges = Vec::new();
    find_edges(&config, &small_print(), &mut edges, Format::Ansi);
    let found: Vec<_> = edges.iter().map(fields).collect();
    assert_eq!(
        found,
        vec![
            (25, -53, 37, 0, 1, -53, BetaOrder::KJ),
            (9425, -88, 2, 1, 2, 2, BetaOrder::KJ),
            (10000, 170, 180, 2, 3, 0, BetaOrder::JK),
        ]
    );
}

#[test]
fn edges_come_out_sorted_by_length() {
    let config = Config::new();
    let print = vec![minutia(0, 0, 0), minutia(100, 0, 0), minutia(101, 0, 0)];
    let mut edges = Vec::new();
    find_edges(&config, &print, &mut edges, Format::NistInternal);
    let found: Vec<_> = edges.iter().map(|edge| (edge.distance_squared, edge.endpoint_k.0, edge.endpoint_j.0)).collect();
    assert_eq!(found, vec![(1, 1, 2), (10000, 0, 1), (10201, 0, 2)]);
}

#[test]
fn edges_of_equal_length_are_sorted_by_their_angles() {
    let config = Config::new();
    let print = vec![minutia(0, 0, 90), minutia(10, 0, 40), minutia(20, 0, 0)];
    let mut edges = Vec::new();
    find_edges(&config, &print, &mut edges, Format::NistInternal);
    let found: Vec<_> = edges.iter().map(fields).collect();
    assert_eq!(
        found,
        vec![
            (100, -90, 140, 0, 1, 0, BetaOrder::KJ),
            (100, -40, 180, 1, 2, 0, BetaOrder::KJ),
            (400, -90, 180, 0, 2, 0, BetaOrder::KJ),
        ]
    );
}

#[test]
fn find_edges_appends_and_sorts_the_whole_list() {
    let config = Config::new();
    let mut edges = vec![Edge {
        distance_squared: 5000,
        min_beta: 1,
        max_beta: 2,
        endpoint_k: Endpoint(0),
        endpoint_j: Endpoint(1),
        theta_kj: 7,
        beta_order: BetaOrder::JK,
    }];
    find_edges(&config, &small_print(), &mut edges, Format::NistInternal);
    let lengths: Vec<i32> = edges.iter().map(|edge| edge.distance_squared).collect();
    assert_eq!(lengths, vec![25, 5000, 9425, 10000]);
    assert_eq!(edges[1].theta_kj, 7);
}

#[test]
fn a_single_minutia_has_no_edges() {
    let config = Config::new();
    let mut edges = Vec::new();
    find_edges(&config, &[minutia(5, 5, 5)], &mut edges, Format::NistInternal);
    assert!(edges.is_empty());
}

#[test]
fn distance_limit_decides_which_minutiae_make_an_edge() {
    let mut config = Config::new();
    let print = vec![minutia(0, 0, 0), minutia(75, 100, 0), minutia(76, 100, 0)];
    let mut edges = Vec::new();
    find_edges(&config, &print, &mut edges, Format::NistInternal);
    let lengths: Vec<i32> = edges.iter().map(|edge| edge.distance_squared).collect();
    assert_eq!(lengths, vec![1, 15625]);
    set_max_minutia_distance(&mut config, 126);
    let mut wider = Vec::new();
    find_edges(&config, &print, &mut wider, Format::NistInternal);
    let lengths: Vec<i32> = wider.iter().map(|edge| edge.distance_squared).collect();
    assert_eq!(lengths, vec![1, 15625, 15776]);
}

#[test]
fn a_minutia_too_far_to_the_right_ends_the_row() {
    let config = Config::new();
    let print = vec![minutia(0, 0, 0), minutia(126, 0, 0), minutia(10, 0, 0)];
    let mut edges = Vec::new();
    find_edges(&config, &print, &mut edges, Format::NistInternal);
    let ends: Vec<(u32, u32)> = edges.iter().map(|edge| (edge.endpoint_k.0, edge.endpoint_j.0)).collect();
    assert_eq!(ends, vec![(1, 2)]);
}

#[test]
fn coordinates_at_the_rim_of_the_integers_make_no_edge() {
    let config = Config::new();
    let print = vec![minutia(i32::MIN, i32::MIN, 0), minutia(i32::MAX, i32::MAX, 0)];
    let mut edges = Vec::new();
    find_edges(&config, &print, &mut edges, Format::NistInternal);
    assert!(edges.is_empty());
}

fn random_print(seed: u64, count: usize, size: u64) -> Vec<Minutia> {
    let mut state = seed;
    let mut print = Vec::new();
    for _ in 0..count {
        state = state.wrapping_mul(6364136223846793005).wrapping_add(1442695040888963407);
        let x = ((state >> 33) % size) as i32;
        state = state.wrapping_mul(6364136223846793005).wrapping_add(1442695040888963407);
        let y = ((state >> 33) % size) as i32;
        state = state.wrapping_mul(6364136223846793005).wrapping_add(1442695040888963407);
        let theta = ((state >> 33) % 360) as i32 - 179;
        print.push(minutia(x, y, theta));
    }
    print.sort_by_key(|m| (m.x, m.y));
    print
}

#[test]
fn every_edge_has_its_angles_in_order_and_the_list_is_sorted() {
    let config = Config::new();
    for seed in 0..20 {
        let print = random_print(seed, 60, 250);
        let mut edges = Vec::new();
        find_edges(&config, &print, &mut edges, Format::NistInternal);
        assert!(!edges.is_empty());
        for edge in &edges {
            assert!(edge.min_beta <= edge.max_beta);
            assert!(-180 < edge.min_beta && edge.max_beta <= 180);
            assert!(edge.endpoint_k.0 < edge.endpoint_j.0);
            assert!((edge.endpoint_j.0 as usize) < print.len());
            assert!(0 <= edge.distance_squared && edge.distance_squared <= 15625);
        }
        for window in edges.windows(2) {
            let first = (window[0].distance_squared, window[0].min_beta, window[0].max_beta);
            let second = (window[1].distance_squared, window[1].min_beta, window[1].max_beta);
            assert!(first <= second);
        }
    }
}

#[test]
fn every_near_pair_of_minutiae_makes_an_edge() {
    let config = Config::new();
    let print = random_print(3, 50, 300);
    let mut edges = Vec::new();
    find_edges(&config, &print, &mut edges, Format::NistInternal);
    let mut expected = 0;
    for k in 0..print.len() {
        for j in k + 1..print.len() {
            let dx = print[j].x - print[k].x;
            let dy = print[j].y - print[k].y;
            let opposite = (print[k].theta - print[j].theta).abs() == 180;
            if !opposite && dx * dx + dy * dy <= 15625 {
                expected += 1;
            }
        }
    }
    assert_eq!(edges.len(), expected);
}

#[test]
fn limit_of_a_short_list_is_its_length() {
    let config = Config::new();
    let mut edges = Vec::new();
    find_edges(&config, &small_print(), &mut edges, Format::NistInternal);
    assert_eq!(limit_edges(&config, &edges), 3);
    assert_eq!(limit_edges(&config, &[]), 0);
    assert_eq!(limit_edges_by_length(&edges, 5625), 1);
    assert_eq!(limit_edges_by_length(&edges, 24), 0);
    assert_eq!(limit_edges_by_length(&edges, 25), 1);
    assert_eq!(limit_edges_by_length(&edges, 9425), 2);
    assert_eq!(limit_edges_by_length(&edges, 20000), 3);
}

#[test]
fn limit_of_a_long_list_counts_the_short_edges() {
    let config = Config::new();
    let print = random_print(5, 120, 400);
    let mut edges = Vec::new();
    find_edges(&config, &print, &mut edges, Format::NistInternal);
    let short = edges.iter().filter(|edge| edge.distance_squared <= 5625).count();
    assert!(edges.len() > 500);
    assert!(short > 500 && short < edges.len());
    assert_eq!(limit_edges(&config, &edges), short);
    assert_eq!(limit_edges_by_length(&edges, 5625), short);
}

#[test]
fn limit_keeps_at_least_five_hundred_edges() {
    let config = Config::new();
    let print = random_print(6, 90, 450);
    let mut edges = Vec::new();
    find_edges(&config, &print, &mut edges, Format::NistInternal);
    let short = edges.iter().filter(|edge| edge.distance_squared <= 5625).count();
    assert!(edges.len() > 500);
    assert!(short < 500);
    assert_eq!(limit_edges(&config, &edges), 500);
}

fn filler(count: usize) -> Vec<Edge> {
    (0..count)
        .map(|_| Edge {
            distance_squared: 7,
            min_beta: 0,
            max_beta: 0,
            endpoint_k: Endpoint(0),
            endpoint_j: Endpoint(1),
            theta_kj: 0,
            beta_order: BetaOrder::KJ,
        })
        .collect()
}

#[test]
fn the_scan_ends_when_the_list_is_full() {
    let config = Config::new();
    let mut nearly_full = filler(19997);
    find_edges(&config, &small_print(), &mut nearly_full, Format::NistInternal);
    assert_eq!(nearly_full.len(), 19999);
    let found: Vec<i32> = nearly_full.iter().map(|edge| edge.distance_squared).filter(|&d| d != 7).collect();
    assert_eq!(found, vec![25, 9425]);
    let mut room_for_all = filler(19996);
    find_edges(&config, &small_print(), &mut room_for_all, Format::NistInternal);
    assert_eq!(room_for_all.len(), 19999);
    let mut full = filler(19999);
    find_edges(&config, &small_print(), &mut full, Format::NistInternal);
    assert_eq!(full.len(), 20002);
}
