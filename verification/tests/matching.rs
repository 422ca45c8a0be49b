use bozorth::consts::{
    set_max_number_of_clusters, set_max_number_of_groups,
    set_min_number_of_pairs_to_build_cluster,
};
use bozorth::types::{Endpoint, MinutiaKind};
use bozorth::{
    find_edges, limit_edges, match_edges_into_pairs, match_score, set_mode, BozorthState, Config,
    Edge, Format, Minutia, Pair, PairHolder,
};

struct Print {
    minutiae: Vec<Minutia>,
    edges: Vec<Edge>,
}

fn next_random(seed: &mut u64) -> u64 {
    *seed = seed.wrapping_mul(6364136223846793005).wrapping_add(1442695040888963407);
    *seed >> 33
}

fn random_minutiae(seed: u64, count: usize, width: u64, height: u64) -> Vec<Minutia> {
    let mut state = seed;
    let mut minutiae = Vec::new();
    for _ in 0..count {
        let x = (next_random(&mut state) % width) as i32;
        let y = (next_random(&mut state) % height) as i32;
        let theta = (next_random(&mut state) % 360) as i32 - 179;
        let kind = if next_random(&mut state) % 2 == 0 {
            MinutiaKind::Type0
        } else {
            MinutiaKind::Type1
        };
        minutiae.push(Minutia { x, y, theta, kind });
    }
    minutiae.sort_by_key(|m| (m.x, m.y));
    minutiae
}

fn make_print(config: &Config, minutiae: Vec<Minutia>) -> Print {
    let mut edges = Vec::new();
    find_edges(config, &minutiae, &mut edges, Format::NistInternal);
    let limit = limit_edges(config, &edges);
    edges.truncate(limit);
    Print { minutiae, edges }
}

fn random_print(config: &Config, seed: u64, count: usize, size: u64) -> Print {
    make_print(config, random_minutiae(seed, count, size, size))
}

fn islands() -> Vec<Minutia> {
    let mut minutiae = random_minutiae(21, 20, 100, 100);
    for minutia in random_minutiae(22, 20, 100, 100) {
        minutiae.push(Minutia { x: minutia.x + 400, ..minutia });
    }
    minutiae.sort_by_key(|m| (m.x, m.y));
    minutiae
}

fn normalized(angle: i32) -> i32 {
    if angle > 180 {
        angle - 360
    } else if angle <= -180 {
        angle + 360
    } else {
        angle
    }
}

fn rotated_by_thirty_degrees(minutiae: &[Minutia]) -> Vec<Minutia> {
    let cos = 0.8660254037844387f64;
    let sin = 0.49999999999999994f64;
    let mut rotated: Vec<Minutia> = minutiae
        .iter()
        .map(|m| Minutia {
            x: (m.x as f64 * cos - m.y as f64 * sin + 0.5).floor() as i32,
            y: (m.x as f64 * sin + m.y as f64 * cos + 0.5).floor() as i32,
            theta: normalized(m.theta + 30),
            kind: m.kind,
        })
        .collect();
    rotated.sort_by_key(|m| (m.x, m.y));
    rotated
}

fn half_replaced(minutiae: &[Minutia]) -> Vec<Minutia> {
    let mut mixed: Vec<Minutia> = minutiae[..minutiae.len() - 20].to_vec();
    mixed.extend(random_minutiae(77, 20, 300, 300));
    mixed.sort_by_key(|m| (m.x, m.y));
    mixed
}

fn one(_: &Minutia, _: &Minutia, _: &Minutia, _: &Minutia) -> u32 {
    1
}

fn by_kinds(pk: &Minutia, pj: &Minutia, gk: &Minutia, gj: &Minutia) -> u32 {
    match (pk.kind == gk.kind, pj.kind == gj.kind) {
        (true, true) => 4,
        (true, false) | (false, true) => 3,
        (false, false) => 2,
    }
}

fn pairs_of(
    config: &Config,
    probe: &Print,
    gallery: &Print,
    points: fn(&Minutia, &Minutia, &Minutia, &Minutia) -> u32,
) -> PairHolder {
    let mut pairs = PairHolder::new();
    match_edges_into_pairs(
        config,
        &probe.edges,
        &probe.minutiae,
        &gallery.edges,
        &gallery.minutiae,
        &mut pairs,
        points,
    );
    pairs.prepare();
    pairs
}

fn compare(
    config: &Config,
    probe: &Print,
    gallery: &Print,
    points: fn(&Minutia, &Minutia, &Minutia, &Minutia) -> u32,
    state: &mut BozorthState,
) -> Result<(u32, Vec<u32>), ()> {
    let pairs = pairs_of(config, probe, gallery, points);
    match_score(config, &pairs, &probe.minutiae, &gallery.minutiae, Format::NistInternal, state)
}

fn relaxed() -> Config {
    let mut config = Config::new();
    set_mode(&mut config, false);
    config
}

/// Number of clusters, sum of their points, and a sum over all that the pass
/// over the clusters leaves.
fn digest(state: &BozorthState) -> (usize, u32, i64) {
    let clusters = &state.clusters;
    let mut sum: i64 = 0;
    for (i, cluster) in clusters.similar.iter().enumerate() {
        sum += (i as i64 + 1) * cluster.points as i64;
        sum += cluster.compatible_clusters.iter().map(|&other| other as i64).sum::<i64>();
        sum += 3 * cluster.points_including_compatible_clusters as i64;
        sum += clusters.averages[i].delta_theta as i64;
        sum += clusters.averages[i].probe_x as i64;
        sum += clusters.averages[i].gallery_y as i64;
    }
    (
        clusters.similar.len(),
        clusters.similar.iter().map(|cluster| cluster.points).sum(),
        sum.rem_euclid(1000003),
    )
}

#[test]
fn too_few_minutiae_give_no_score() {
    let config = Config::new();
    let small = random_print(&config, 1, 9, 100);
    let large = random_print(&config, 2, 50, 300);
    let mut state = BozorthState::new(&config);
    assert_eq!(compare(&config, &large, &large, one, &mut state).map(|found| found.0 > 0), Ok(true));
    let before = digest(&state);
    assert_eq!(compare(&config, &small, &large, one, &mut state), Err(()));
    assert_eq!(digest(&state), before);
    assert_eq!(compare(&config, &large, &small, one, &mut state), Err(()));
    assert_eq!(compare(&config, &small, &small, one, &mut state), Err(()));
    assert_eq!(digest(&state), before);
    let ten = random_print(&config, 1, 10, 100);
    assert!(compare(&config, &ten, &ten, one, &mut state).is_ok());
}

#[test]
fn identical_prints_score_high_and_name_clusters() {
    let config = Config::new();
    let print = make_print(&config, islands());
    assert_eq!(print.minutiae.len(), 40);
    let mut state = BozorthState::new(&config);
    let (score, clusters) = compare(&config, &print, &print, one, &mut state).unwrap();
    assert!(score > 8);
    assert!(!clusters.is_empty());
    assert_eq!((score, clusters), (377, vec![5]));
    assert_eq!(digest(&state), (9, 554, 6851));
    assert_eq!(compare(&config, &print, &print, by_kinds, &mut state), Ok((1508, vec![5])));
    assert_eq!(digest(&state), (9, 2208, 20445));
    let relaxed = relaxed();
    assert_eq!(compare(&relaxed, &print, &print, one, &mut state), Ok((378, vec![5])));
    assert_eq!(digest(&state), (9, 556, 6860));
    assert_eq!(compare(&relaxed, &print, &print, by_kinds, &mut state), Ok((1512, vec![5])));
    assert_eq!(digest(&state), (9, 2216, 20481));
}

#[test]
fn prints_without_edges_score_zero() {
    let config = Config::new();
    let mut probe = Vec::new();
    let mut gallery = Vec::new();
    for i in 0..40 {
        probe.push(Minutia { x: 200 * (i % 8), y: 200 * (i / 8), theta: 7 * i - 100, kind: MinutiaKind::Type0 });
        gallery.push(Minutia { x: 300 * (i % 5), y: 300 * (i / 5), theta: 170 - 8 * i, kind: MinutiaKind::Type1 });
    }
    probe.sort_by_key(|m| (m.x, m.y));
    gallery.sort_by_key(|m| (m.x, m.y));
    let probe = make_print(&config, probe);
    let gallery = make_print(&config, gallery);
    assert!(probe.edges.is_empty() && gallery.edges.is_empty());
    let mut state = BozorthState::new(&config);
    assert_eq!(compare(&config, &probe, &gallery, one, &mut state), Ok((0, vec![])));
    assert_eq!(state.clusters.len(), 0);
    assert_eq!(compare(&relaxed(), &probe, &gallery, one, &mut state), Ok((0, vec![])));
}

#[test]
fn a_rotated_copy_scores_nearly_as_the_print_itself() {
    let config = Config::new();
    let base = random_minutiae(1, 40, 300, 300);
    let print = make_print(&config, base.clone());
    let turned = make_print(&config, rotated_by_thirty_degrees(&base));
    assert_eq!((print.edges.len(), turned.edges.len()), (389, 392));
    let mut state = BozorthState::new(&config);
    let own = compare(&config, &print, &print, one, &mut state).unwrap().0;
    assert_eq!(own, 388);
    assert_eq!(digest(&state), (15, 4070, 42092));
    let (score, _) = compare(&config, &print, &turned, one, &mut state).unwrap();
    assert_eq!(score, 387);
    assert_eq!(digest(&state), (18, 5195, 63529));
    assert!(score * 10 >= own * 9);
    assert_eq!(compare(&config, &turned, &print, one, &mut state).unwrap().0, 372);
    assert_eq!(digest(&state), (14, 3276, 33179));
    let relaxed = relaxed();
    assert_eq!(compare(&relaxed, &print, &turned, one, &mut state).unwrap().0, 388);
    assert_eq!(digest(&state), (24, 6135, 88580));
    assert_eq!(compare(&relaxed, &turned, &print, one, &mut state).unwrap().0, 362);
    assert_eq!(digest(&state), (21, 5844, 79535));
}

#[test]
fn a_print_with_half_its_minutiae_replaced_scores_in_between() {
    let config = Config::new();
    let base = random_minutiae(1, 40, 300, 300);
    let print = make_print(&config, base.clone());
    let mixed = make_print(&config, half_replaced(&base));
    let mut state = BozorthState::new(&config);
    let own = compare(&config, &print, &print, one, &mut state).unwrap().0;
    let (score, _) = compare(&config, &print, &mixed, one, &mut state).unwrap();
    assert!(0 < score && score < own);
    assert_eq!(score, 119);
    assert_eq!(digest(&state), (10, 398, 4893));
    assert_eq!(compare(&relaxed(), &print, &mixed, one, &mut state).unwrap().0, 119);
    assert_eq!(digest(&state), (13, 559, 7051));
}

#[test]
fn strict_mode_gives_the_legacy_scores() {
    let config = Config::new();
    let mut state = BozorthState::new(&config);
    let cases: Vec<(u64, u64, usize, u64, u32, u32, (usize, u32, i64), (usize, u32, i64))> = vec![
        (1, 1, 40, 300, 388, 1552, (15, 4070, 42092), (15, 16270, 155572)),
        (1, 2, 40, 300, 3, 10, (3, 9, 867), (3, 29, 968)),
        (3, 4, 60, 250, 6, 15, (17, 58, 4841), (17, 165, 6127)),
        (5, 5, 30, 150, 392, 1568, (13, 2778, 22566), (13, 10958, 82958)),
        (7, 8, 80, 220, 6, 21, (63, 219, 18291), (63, 661, 33273)),
        (9, 10, 25, 120, 4, 12, (2, 7, 999935), (2, 22, 1000002)),
    ];
    for (first, second, count, size, plain, kinds, plain_digest, kinds_digest) in cases {
        let probe = random_print(&config, first, count, size);
        let gallery = random_print(&config, second, count, size);
        assert_eq!(compare(&config, &probe, &gallery, one, &mut state).unwrap().0, plain);
        assert_eq!(digest(&state), plain_digest);
        assert_eq!(compare(&config, &probe, &gallery, by_kinds, &mut state).unwrap().0, kinds);
        assert_eq!(digest(&state), kinds_digest);
    }
}

#[test]
fn relaxed_mode_scores_within_the_bounds_of_its_clusters() {
    let config = relaxed();
    let mut state = BozorthState::new(&config);
    let cases: Vec<(u64, u64, usize, u64, u32, u32, (usize, u32, i64), (usize, u32, i64))> = vec![
        (1, 1, 40, 300, 389, 1556, (17, 4136, 44299), (17, 16534, 162429)),
        (1, 2, 40, 300, 3, 10, (3, 9, 867), (3, 29, 968)),
        (3, 4, 60, 250, 6, 15, (17, 58, 4841), (17, 165, 6127)),
        (5, 5, 30, 150, 393, 1572, (20, 5086, 64415), (20, 20143, 245952)),
        (7, 8, 80, 220, 6, 21, (62, 215, 17798), (62, 649, 32286)),
        (9, 10, 25, 120, 4, 12, (2, 7, 999935), (2, 22, 1000002)),
    ];
    for (first, second, count, size, plain, kinds, plain_digest, kinds_digest) in cases {
        let probe = random_print(&config, first, count, size);
        let gallery = random_print(&config, second, count, size);
        let (score, _) = compare(&config, &probe, &gallery, one, &mut state).unwrap();
        assert_eq!(score, plain);
        assert_eq!(digest(&state), plain_digest);
        let total: u32 = state.clusters.similar.iter().map(|cluster| cluster.points).sum();
        assert!(score <= total);
        assert!(state.clusters.similar.iter().all(|cluster| score >= cluster.points));
        assert_eq!(compare(&config, &probe, &gallery, by_kinds, &mut state).unwrap().0, kinds);
        assert_eq!(digest(&state), kinds_digest);
    }
}

#[test]
fn the_score_is_bounded_by_the_clusters() {
    let config = Config::new();
    let mut state = BozorthState::new(&config);
    for seed in 30..40 {
        let probe = random_print(&config, seed, 45, 260);
        let gallery = random_print(&config, seed + 100, 45, 260);
        for (first, second) in [(&probe, &probe), (&probe, &gallery)] {
            let (score, _) = compare(&config, first, second, by_kinds, &mut state).unwrap();
            let total: u32 = state.clusters.similar.iter().map(|cluster| cluster.points).sum();
            assert!(score <= total);
            for cluster in &state.clusters.similar {
                assert!(score >= cluster.points);
                assert!(cluster.points_including_compatible_clusters >= cluster.points);
            }
        }
    }
}

#[test]
fn clusters_hold_no_pair_twice_and_link_only_clusters_behind_them() {
    let config = Config::new();
    let mut state = BozorthState::new(&config);
    let probe = random_print(&config, 7, 80, 220);
    let gallery = random_print(&config, 8, 80, 220);
    let pairs = pairs_of(&config, &probe, &gallery, one);
    match_score(&config, &pairs, &probe.minutiae, &gallery.minutiae, Format::NistInternal, &mut state).unwrap();
    assert_eq!(state.clusters.len(), 63);
    for (i, members) in state.clusters.pairs.iter().enumerate() {
        let mut sorted = members.clone();
        sorted.sort();
        sorted.dedup();
        assert_eq!(sorted.len(), members.len());
        assert!(members.len() >= 3);
        assert!(members.iter().all(|&pair| (pair as usize) < pairs.len()));
        let points: u32 = members.iter().map(|&pair| pairs.get(pair as usize).points).sum();
        assert_eq!(points, state.clusters.similar[i].points);
        let linked = &state.clusters.similar[i].compatible_clusters;
        assert!(linked.windows(2).all(|w| w[0] < w[1]));
        assert!(linked.iter().all(|&other| other as usize > i && (other as usize) < 63));
    }
}

#[test]
fn the_outcome_does_not_depend_on_what_the_engine_held() {
    let config = Config::new();
    let probe = random_print(&config, 1, 40, 300);
    let gallery = random_print(&config, 2, 40, 300);
    let mut fresh = BozorthState::new(&config);
    let first = compare(&config, &probe, &gallery, by_kinds, &mut fresh);
    let first_digest = digest(&fresh);
    let mut used = BozorthState::new(&config);
    compare(&config, &gallery, &gallery, one, &mut used).unwrap();
    compare(&relaxed(), &probe, &probe, by_kinds, &mut used).unwrap();
    assert_eq!(compare(&config, &probe, &gallery, by_kinds, &mut used), first);
    assert_eq!(digest(&used), first_digest);
    assert_eq!(compare(&config, &probe, &gallery, by_kinds, &mut used), first);
    assert_eq!(compare(&config, &probe, &gallery, by_kinds, &mut fresh), first);
    fresh.clear();
    assert_eq!(fresh.clusters.len(), 0);
    assert_eq!(fresh.len(), 0);
    assert_eq!(compare(&config, &probe, &gallery, by_kinds, &mut fresh), first);
}

#[test]
fn a_print_matches_itself_at_least_as_well_as_another() {
    let config = Config::new();
    let mut state = BozorthState::new(&config);
    for seed in 50..56 {
        let print = random_print(&config, seed, 40, 300);
        let other = random_print(&config, seed + 10, 40, 300);
        let own = compare(&config, &print, &print, one, &mut state).unwrap().0;
        let cross = compare(&config, &print, &other, one, &mut state).unwrap().0;
        assert!(own >= cross);
    }
}

#[test]
fn no_more_clusters_are_built_than_allowed() {
    let mut config = Config::new();
    set_max_number_of_clusters(&mut config, 5);
    let print = random_print(&config, 1, 40, 300);
    let mut state = BozorthState::new(&config);
    assert_eq!(compare(&config, &print, &print, one, &mut state).unwrap().0, 388);
    assert_eq!(digest(&state), (5, 1809, 12090));
    set_mode(&mut config, false);
    assert_eq!(compare(&config, &print, &print, one, &mut state).unwrap().0, 389);
    assert_eq!(digest(&state), (5, 1792, 11979));
    set_max_number_of_clusters(&mut config, 1);
    compare(&config, &print, &print, one, &mut state).unwrap();
    assert_eq!(state.clusters.len(), 1);
}

#[test]
fn without_groups_fewer_clusters_are_built() {
    let mut config = Config::new();
    set_max_number_of_groups(&mut config, 0);
    let print = random_print(&config, 1, 40, 300);
    let mut state = BozorthState::new(&config);
    assert_eq!(compare(&config, &print, &print, one, &mut state).unwrap().0, 388);
    assert_eq!(digest(&state), (8, 1351, 10078));
    set_mode(&mut config, false);
    assert_eq!(compare(&config, &print, &print, one, &mut state).unwrap().0, 389);
    assert_eq!(digest(&state), (8, 1354, 10096));
}

#[test]
fn clusters_need_the_fewest_pairs() {
    let mut config = Config::new();
    set_min_number_of_pairs_to_build_cluster(&mut config, 6);
    let probe = random_print(&config, 1, 40, 300);
    let gallery = random_print(&config, 2, 40, 300);
    let mut state = BozorthState::new(&config);
    assert_eq!(compare(&config, &probe, &gallery, one, &mut state), Ok((0, vec![])));
    assert_eq!(state.clusters.len(), 0);
    let plain = Config::new();
    assert_eq!(compare(&plain, &probe, &gallery, one, &mut state), Ok((3, vec![2])));
    let members: Vec<Vec<u32>> = state.clusters.pairs.clone();
    assert_eq!(members, vec![vec![36, 60, 100], vec![62, 63, 93], vec![68, 69, 86]]);
}

#[test]
fn no_pairs_give_no_clusters() {
    let config = Config::new();
    let print = random_print(&config, 1, 40, 300);
    let mut pairs = PairHolder::new();
    pairs.prepare();
    let mut state = BozorthState::new(&config);
    assert_eq!(
        match_score(&config, &pairs, &print.minutiae, &print.minutiae, Format::NistInternal, &mut state),
        Ok((0, vec![]))
    );
    assert_eq!(
        match_score(&relaxed(), &pairs, &print.minutiae, &print.minutiae, Format::Ansi, &mut state),
        Ok((0, vec![]))
    );
}

#[test]
fn one_cluster_below_the_threshold_is_named() {
    let config = Config::new();
    let print: Vec<Minutia> =
        (0..10).map(|i| Minutia { x: i, y: 0, theta: 0, kind: MinutiaKind::Type0 }).collect();
    let mut pairs = PairHolder::new();
    for (probe_k, gallery_k, probe_j, gallery_j) in [(0, 0, 1, 1), (0, 0, 2, 2), (1, 1, 2, 2)] {
        pairs.push(Pair {
            delta_theta: 0,
            probe_k: Endpoint(probe_k),
            gallery_k: Endpoint(gallery_k),
            probe_j: Endpoint(probe_j),
            gallery_j: Endpoint(gallery_j),
            points: 1,
        });
    }
    pairs.prepare();
    let mut state = BozorthState::new(&config);
    assert_eq!(
        match_score(&config, &pairs, &print, &print, Format::NistInternal, &mut state),
        Ok((3, vec![0]))
    );
    assert_eq!(state.clusters.pairs, vec![vec![0, 1, 2]]);
    assert_eq!(
        match_score(&relaxed(), &pairs, &print, &print, Format::NistInternal, &mut state),
        Ok((3, vec![0]))
    );
}

#[test]
fn below_the_threshold_the_last_of_the_richest_clusters_is_named() {
    let strict = Config::new();
    let relaxed = relaxed();
    let mut state = BozorthState::new(&strict);
    let cases: Vec<(u64, u64, usize, u64, u32, Vec<u32>, Vec<u32>)> = vec![
        (1, 2, 40, 300, 3, vec![2], vec![2]),
        (3, 4, 60, 250, 6, vec![7], vec![7]),
        (7, 8, 80, 220, 6, vec![55], vec![54]),
        (9, 10, 25, 120, 4, vec![0], vec![0]),
    ];
    for (first, second, count, size, score, strict_list, relaxed_list) in cases {
        let probe = random_print(&strict, first, count, size);
        let gallery = random_print(&strict, second, count, size);
        assert_eq!(compare(&strict, &probe, &gallery, one, &mut state), Ok((score, strict_list)));
        let (_, list) = compare(&relaxed, &probe, &gallery, one, &mut state).unwrap();
        assert_eq!(list, relaxed_list);
        let most = state
            .clusters
            .similar
            .iter()
            .map(|cluster| cluster.points_including_compatible_clusters)
            .max()
            .unwrap();
        let richest = list[0] as usize;
        assert_eq!(state.clusters.similar[richest].points_including_compatible_clusters, most);
        assert!(state.clusters.similar[richest + 1..]
            .iter()
            .all(|cluster| cluster.points_including_compatible_clusters < most));
        assert_eq!(list[1..], state.clusters.similar[richest].compatible_clusters[..]);
    }
}
