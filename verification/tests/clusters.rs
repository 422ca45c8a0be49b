use bozorth::clusters::{
    are_clusters_compatible, calculate_average_delta_theta_for_pairs, calculate_averages,
    calculate_points, encode_selected_endpoints, filter_selected,
    find_compatible_disjoint_clusters_and_accumulate_points, have_common_endpoints,
    ClusterAverages, ClusterSimilar, Clusters,
};
use bozorth::bozorth::list_richest_cluster;
use bozorth::combine::combine_clusters;
use bozorth::consts::set_factor_fraction;
use bozorth::types::{Endpoint, MinutiaKind};
use bozorth::{Config, Format, Minutia, Pair, PairHolder};

fn pair(probe_k: u32, gallery_k: u32, probe_j: u32, gallery_j: u32, delta_theta: i32, points: u32) -> Pair {
    Pair {
        delta_theta,
        probe_k: Endpoint(probe_k),
        gallery_k: Endpoint(gallery_k),
        probe_j: Endpoint(probe_j),
        gallery_j: Endpoint(gallery_j),
        points,
    }
}

fn minutia(x: i32, y: i32) -> Minutia {
    Minutia { x, y, theta: 0, kind: MinutiaKind::Type0 }
}

fn sample() -> PairHolder {
    let mut pairs = PairHolder::new();
    pairs.push(pair(0, 1, 1, 2, 170, 2));
    pairs.push(pair(1, 0, 2, 2, -170, 3));
    pairs.push(pair(2, 2, 0, 0, -179, 4));
    pairs.push(pair(150, 160, 170, 199, 10, 5));
    pairs.push(pair(151, 1, 152, 161, 12, 6));
    pairs.push(pair(153, 162, 154, 163, 14, 7));
    pairs.push(pair(155, 164, 156, 165, 30, 8));
    pairs.prepare();
    pairs
}

fn averages(delta_theta: i32, probe: (i32, i32), gallery: (i32, i32)) -> ClusterAverages {
    ClusterAverages {
        delta_theta,
        probe_x: probe.0,
        probe_y: probe.1,
        gallery_x: gallery.0,
        gallery_y: gallery.1,
    }
}

#[test]
fn points_of_a_selection_are_added_up() {
    let pairs = sample();
    assert_eq!(calculate_points(&pairs, &vec![]), 0);
    assert_eq!(calculate_points(&pairs, &vec![0, 1, 2]), 9);
    assert_eq!(calculate_points(&pairs, &vec![6, 3]), 13);
}

#[test]
fn averages_of_a_selection() {
    let pairs = sample();
    let probe = vec![minutia(10, 19), minutia(-7, 3), minutia(100, -50)];
    let gallery = vec![minutia(1, 1), minutia(2, 2), minutia(3, 4)];
    let found = calculate_averages(&probe, &gallery, &pairs, &vec![0, 1, 2]);
    assert_eq!(found.delta_theta, 180);
    assert_eq!(found.probe_x, 34);
    assert_eq!(found.probe_y, -9);
    assert_eq!(found.gallery_x, 2);
    assert_eq!(found.gallery_y, 2);
    let single = calculate_averages(&probe, &gallery, &pairs, &vec![1]);
    assert_eq!(single.delta_theta, -170);
    assert_eq!((single.probe_x, single.probe_y), (-7, 3));
    assert_eq!((single.gallery_x, single.gallery_y), (1, 1));
}

#[test]
fn averages_of_coordinates_at_the_rim_of_the_integers() {
    let mut pairs = PairHolder::new();
    pairs.push(pair(0, 0, 1, 1, 0, 1));
    pairs.push(pair(1, 1, 0, 0, 0, 1));
    pairs.prepare();
    let probe = vec![minutia(i32::MAX, i32::MIN), minutia(i32::MAX, i32::MIN)];
    let gallery = vec![minutia(i32::MAX, i32::MIN), minutia(i32::MAX - 1, i32::MIN + 1)];
    let found = calculate_averages(&probe, &gallery, &pairs, &vec![0, 1]);
    assert_eq!((found.probe_x, found.probe_y), (i32::MAX, i32::MIN));
    assert_eq!((found.gallery_x, found.gallery_y), (i32::MAX - 1, i32::MIN + 1));
}

#[test]
fn average_rotation_of_a_selection() {
    let pairs = sample();
    assert_eq!(calculate_average_delta_theta_for_pairs(&vec![3, 4, 5, 6], &pairs), 17);
    assert_eq!(calculate_average_delta_theta_for_pairs(&vec![0, 1], &pairs), 180);
    assert_eq!(calculate_average_delta_theta_for_pairs(&vec![], &pairs), 0);
}

#[test]
fn filter_keeps_the_pairs_near_the_average_rotation() {
    let config = Config::new();
    let pairs = sample();
    let mut selected = vec![3, 4, 5, 6];
    filter_selected(&config, &mut selected, &pairs);
    assert_eq!(selected, vec![3, 4, 5]);
    let mut across = vec![0, 1, 2];
    filter_selected(&config, &mut across, &pairs);
    assert_eq!(across, vec![0, 1, 2]);
    let mut apart = vec![0, 3];
    filter_selected(&config, &mut apart, &pairs);
    assert_eq!(apart, Vec::<u32>::new());
}

#[test]
fn clusters_share_endpoints_on_either_print() {
    let pairs = sample();
    let first = encode_selected_endpoints(&pairs, &vec![0]);
    let second = encode_selected_endpoints(&pairs, &vec![2]);
    let far = encode_selected_endpoints(&pairs, &vec![3]);
    let by_gallery = encode_selected_endpoints(&pairs, &vec![4]);
    let several = encode_selected_endpoints(&pairs, &vec![5, 6]);
    let nothing = encode_selected_endpoints(&pairs, &vec![]);
    assert!(have_common_endpoints(&first, &second));
    assert!(have_common_endpoints(&second, &first));
    assert!(have_common_endpoints(&first, &first));
    assert!(!have_common_endpoints(&first, &far));
    assert!(!have_common_endpoints(&far, &first));
    assert!(have_common_endpoints(&first, &by_gallery));
    assert!(!have_common_endpoints(&far, &by_gallery));
    assert!(!have_common_endpoints(&several, &far));
    assert!(have_common_endpoints(&several, &several));
    assert!(!have_common_endpoints(&nothing, &first));
    assert!(!have_common_endpoints(&nothing, &nothing));
}

#[test]
fn endpoints_in_every_block_are_found() {
    for endpoint in [0u32, 63, 64, 127, 128, 191, 192, 199] {
        let mut pairs = PairHolder::new();
        pairs.push(pair(endpoint, 5, endpoint, 5, 0, 1));
        pairs.push(pair(endpoint, 6, endpoint, 6, 0, 1));
        pairs.push(pair((endpoint + 1) % 200, 5, (endpoint + 1) % 200, 5, 0, 1));
        pairs.push(pair(7, endpoint, 7, endpoint, 0, 1));
        pairs.push(pair(8, endpoint, 8, endpoint, 0, 1));
        let first = encode_selected_endpoints(&pairs, &vec![0]);
        let same_probe = encode_selected_endpoints(&pairs, &vec![1]);
        let next_probe = encode_selected_endpoints(&pairs, &vec![2]);
        let third = encode_selected_endpoints(&pairs, &vec![3]);
        let same_gallery = encode_selected_endpoints(&pairs, &vec![4]);
        assert!(have_common_endpoints(&first, &same_probe));
        assert!(have_common_endpoints(&first, &next_probe));
        assert!(!have_common_endpoints(&same_probe, &next_probe));
        assert!(have_common_endpoints(&third, &same_gallery));
    }
}

#[test]
fn compatible_clusters_agree_in_rotation_distance_and_direction() {
    let config = Config::new();
    let origin = averages(0, (0, 0), (0, 0));
    assert!(are_clusters_compatible(&config, &origin, &averages(0, (10, 0), (10, 0)), Format::NistInternal));
    assert!(are_clusters_compatible(&config, &origin, &averages(11, (10, 0), (10, 0)), Format::NistInternal));
    assert!(!are_clusters_compatible(&config, &origin, &averages(12, (10, 0), (10, 0)), Format::NistInternal));
    assert!(!are_clusters_compatible(&config, &origin, &averages(0, (10, 0), (0, 10)), Format::NistInternal));
    assert!(are_clusters_compatible(
        &config,
        &averages(-90, (0, 0), (0, 0)),
        &averages(-90, (10, 0), (0, 10)),
        Format::NistInternal
    ));
    assert!(!are_clusters_compatible(
        &config,
        &averages(-90, (0, 0), (0, 0)),
        &averages(-90, (10, 0), (0, 10)),
        Format::Ansi
    ));
    assert!(are_clusters_compatible(
        &config,
        &averages(90, (0, 0), (0, 0)),
        &averages(90, (10, 0), (0, 10)),
        Format::Ansi
    ));
    assert!(are_clusters_compatible(&config, &origin, &origin, Format::NistInternal));
}

#[test]
fn compatible_clusters_are_equally_far_apart_up_to_the_tolerance() {
    let mut config = Config::new();
    let origin = averages(0, (0, 0), (0, 0));
    assert!(are_clusters_compatible(&config, &origin, &averages(0, (100, 0), (110, 0)), Format::NistInternal));
    assert!(!are_clusters_compatible(&config, &origin, &averages(0, (100, 0), (111, 0)), Format::NistInternal));
    assert!(are_clusters_compatible(&config, &origin, &averages(0, (110, 0), (100, 0)), Format::NistInternal));
    assert!(!are_clusters_compatible(&config, &origin, &averages(0, (111, 0), (100, 0)), Format::NistInternal));
    set_factor_fraction(&mut config, 3, 40);
    assert!(are_clusters_compatible(&config, &origin, &averages(0, (100, 0), (111, 0)), Format::NistInternal));
    assert!(are_clusters_compatible(&config, &origin, &averages(0, (100, 0), (116, 0)), Format::NistInternal));
    assert!(!are_clusters_compatible(&config, &origin, &averages(0, (100, 0), (117, 0)), Format::NistInternal));
}

#[test]
fn compatibility_of_clusters_at_the_rim_of_the_integers() {
    let config = Config::new();
    let low = averages(0, (i32::MIN, i32::MIN), (i32::MIN, i32::MIN));
    let high = averages(0, (i32::MAX, i32::MAX), (i32::MAX, i32::MAX));
    assert!(are_clusters_compatible(&config, &low, &high, Format::NistInternal));
    assert!(are_clusters_compatible(&config, &high, &low, Format::Ansi));
}

fn cluster(points: u32, compatible_clusters: Vec<u32>, points_including_compatible_clusters: u32) -> ClusterSimilar {
    ClusterSimilar { points, compatible_clusters, points_including_compatible_clusters }
}

fn built(pairs: &PairHolder, entries: Vec<(u32, ClusterAverages, Vec<u32>)>) -> Clusters {
    let mut clusters = Clusters::with_capacity(4);
    for (points, average, selected) in entries {
        clusters.push(
            cluster(points, vec![], 0),
            average,
            encode_selected_endpoints(pairs, &selected),
            selected,
        );
    }
    clusters
}

#[test]
fn pairwise_pass_links_each_cluster_with_the_compatible_ones_behind_it() {
    let config = Config::new();
    let pairs = sample();
    let mut clusters = built(
        &pairs,
        vec![
            (5, averages(0, (0, 0), (0, 0)), vec![0]),
            (3, averages(0, (10, 0), (10, 0)), vec![3]),
            (4, averages(0, (10, 0), (10, 0)), vec![4]),
            (9, averages(90, (10, 0), (10, 0)), vec![5]),
        ],
    );
    assert_eq!(clusters.len(), 4);
    find_compatible_disjoint_clusters_and_accumulate_points(&config, &mut clusters, Format::NistInternal);
    assert_eq!(clusters.similar[0].compatible_clusters, vec![1]);
    assert_eq!(clusters.similar[0].points_including_compatible_clusters, 8);
    assert_eq!(clusters.similar[1].compatible_clusters, vec![2]);
    assert_eq!(clusters.similar[1].points_including_compatible_clusters, 7);
    assert_eq!(clusters.similar[2].compatible_clusters, Vec::<u32>::new());
    assert_eq!(clusters.similar[2].points_including_compatible_clusters, 4);
    assert_eq!(clusters.similar[3].compatible_clusters, Vec::<u32>::new());
    assert_eq!(clusters.similar[3].points_including_compatible_clusters, 9);
    assert_eq!(clusters.similar[0].points, 5);
    assert_eq!(clusters.pairs[2], vec![4]);
    assert_eq!(combine_clusters(&clusters, false), (9, vec![]));
    assert_eq!(combine_clusters(&clusters, true), (9, vec![]));
    clusters.clear();
    assert_eq!(clusters.len(), 0);
    assert_eq!(combine_clusters(&clusters, true), (0, vec![]));
}

fn linked(entries: Vec<(u32, Vec<u32>)>) -> Clusters {
    let pairs = sample();
    let mut clusters = Clusters::with_capacity(entries.len());
    for (points, compatible) in &entries {
        let others: u32 = compatible.iter().map(|&other| entries[other as usize].0).sum();
        clusters.push(
            cluster(*points, compatible.clone(), points + others),
            averages(0, (0, 0), (0, 0)),
            encode_selected_endpoints(&pairs, &vec![]),
            vec![],
        );
    }
    clusters
}

#[test]
fn combine_finds_the_best_chain_of_linked_clusters() {
    let clusters = linked(vec![(5, vec![1, 2, 3]), (3, vec![3]), (4, vec![3]), (2, vec![])]);
    assert_eq!(combine_clusters(&clusters, false), (11, vec![]));
    assert_eq!(combine_clusters(&clusters, true), (11, vec![1, 2, 3]));
}

#[test]
fn combine_passes_clusters_that_cannot_beat_the_best() {
    let clusters = linked(vec![(1, vec![]), (2, vec![2]), (3, vec![]), (10, vec![4]), (1, vec![])]);
    assert_eq!(combine_clusters(&clusters, false), (11, vec![]));
    assert_eq!(combine_clusters(&clusters, true), (11, vec![4]));
}

#[test]
fn combine_keeps_the_first_of_two_equal_chains() {
    let clusters = linked(vec![(4, vec![2]), (4, vec![3]), (1, vec![]), (1, vec![])]);
    assert_eq!(combine_clusters(&clusters, true), (5, vec![2]));
}

#[test]
fn combine_follows_only_clusters_linked_with_the_whole_chain() {
    let clusters = linked(vec![(1, vec![1, 2]), (1, vec![3]), (1, vec![3]), (100, vec![])]);
    assert_eq!(combine_clusters(&clusters, true), (101, vec![3]));
    let clique = linked(vec![(1, vec![1, 2, 3]), (1, vec![2, 3]), (1, vec![3]), (100, vec![])]);
    assert_eq!(combine_clusters(&clique, true), (103, vec![1, 2, 3]));
}

#[test]
fn combine_is_bounded_by_the_clusters() {
    let mut seed: u64 = 99;
    for _ in 0..200 {
        let mut entries = Vec::new();
        let count = 8;
        for i in 0..count {
            seed = seed.wrapping_mul(6364136223846793005).wrapping_add(1442695040888963407);
            let points = ((seed >> 40) % 20) as u32;
            let mut compatible = Vec::new();
            for j in i + 1..count {
                seed = seed.wrapping_mul(6364136223846793005).wrapping_add(1442695040888963407);
                if (seed >> 40) % 3 == 0 {
                    compatible.push(j as u32);
                }
            }
            entries.push((points, compatible));
        }
        let total: u32 = entries.iter().map(|entry| entry.0).sum();
        let greatest: u32 = entries.iter().map(|entry| entry.0).max().unwrap();
        let clusters = linked(entries.clone());
        let (score, collected) = combine_clusters(&clusters, true);
        assert!(score >= greatest && score <= total);
        assert_eq!(combine_clusters(&clusters, false), (score, vec![]));
        let mut best = 0;
        for mask in 1u32..(1 << count) {
            let members: Vec<usize> = (0..count).filter(|i| mask & (1 << i) != 0).collect();
            let clique = members.iter().all(|&a| {
                members.iter().all(|&b| a >= b || entries[a].1.contains(&(b as u32)))
            });
            if clique {
                best = best.max(members.iter().map(|&m| entries[m].0).sum());
            }
        }
        assert_eq!(score, best);
        assert!(collected.windows(2).all(|w| w[0] < w[1]));
    }
}

#[test]
fn the_richest_cluster_is_listed_with_its_linked_clusters() {
    let clusters = linked(vec![(5, vec![1, 2, 3]), (3, vec![3]), (4, vec![3]), (2, vec![])]);
    assert_eq!(list_richest_cluster(&clusters), vec![0, 1, 2, 3]);
    let later = linked(vec![(1, vec![]), (2, vec![2]), (3, vec![]), (10, vec![4]), (1, vec![])]);
    assert_eq!(list_richest_cluster(&later), vec![3, 4]);
    let single = linked(vec![(7, vec![])]);
    assert_eq!(list_richest_cluster(&single), vec![0]);
}

#[test]
fn of_equally_rich_clusters_the_last_is_listed() {
    let clusters = linked(vec![(4, vec![2]), (4, vec![3]), (1, vec![]), (1, vec![])]);
    assert_eq!(list_richest_cluster(&clusters), vec![1, 3]);
    let equal = linked(vec![(3, vec![]), (3, vec![]), (3, vec![])]);
    assert_eq!(list_richest_cluster(&equal), vec![2]);
    let none = linked(vec![(0, vec![]), (0, vec![])]);
    assert_eq!(list_richest_cluster(&none), vec![1]);
}

#[test]
fn without_clusters_nothing_is_listed() {
    let clusters = linked(vec![]);
    assert_eq!(list_richest_cluster(&clusters), Vec::<u32>::new());
}
