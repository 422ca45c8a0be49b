use bozorth::consts::{
    angle_lower_bound, angle_upper_bound, factor_fraction, max_minutia_distance,
    max_minutia_distance_squared, max_number_of_clusters, max_number_of_groups,
    min_number_of_pairs_to_build_cluster, score_threshold, set_angle_diff, set_factor_fraction,
    set_max_minutia_distance, set_max_number_of_clusters, set_max_number_of_groups,
    set_min_number_of_pairs_to_build_cluster,
};
use bozorth::{is_strict_mode, set_mode, timeit, Config};

#[test]
fn configuration_starts_with_the_documented_values() {
    let config = Config::new();
    assert_eq!(max_minutia_distance(&config), 125);
    assert_eq!(max_minutia_distance_squared(&config), 5625);
    assert_eq!(min_number_of_pairs_to_build_cluster(&config), 3);
    assert_eq!(max_number_of_clusters(&config), 2000);
    assert_eq!(max_number_of_groups(&config), 10);
    assert_eq!(score_threshold(&config), 8);
    assert_eq!(angle_lower_bound(&config), 11);
    assert_eq!(angle_upper_bound(&config), 349);
    assert_eq!(factor_fraction(&config), (1, 20));
    assert!(is_strict_mode(&config));
    let default = Config::default();
    assert_eq!(max_minutia_distance(&default), 125);
    assert_eq!(factor_fraction(&default), (1, 20));
}

#[test]
fn setters_change_one_value_each() {
    let mut config = Config::new();
    set_max_minutia_distance(&mut config, 90);
    assert_eq!(max_minutia_distance(&config), 90);
    assert_eq!(max_minutia_distance_squared(&config), 5625);
    set_min_number_of_pairs_to_build_cluster(&mut config, 5);
    assert_eq!(min_number_of_pairs_to_build_cluster(&config), 5);
    set_max_number_of_clusters(&mut config, 7);
    assert_eq!(max_number_of_clusters(&config), 7);
    set_max_number_of_groups(&mut config, 0);
    assert_eq!(max_number_of_groups(&config), 0);
    set_factor_fraction(&mut config, 3, 40);
    assert_eq!(factor_fraction(&config), (3, 40));
    set_mode(&mut config, false);
    assert!(!is_strict_mode(&config));
    set_mode(&mut config, true);
    assert!(is_strict_mode(&config));
    assert_eq!(score_threshold(&config), 8);
    assert_eq!(angle_lower_bound(&config), 11);
}

#[test]
fn angle_bounds_add_up_to_a_full_turn() {
    let mut config = Config::new();
    set_angle_diff(&mut config, 13);
    assert_eq!(angle_lower_bound(&config), 13);
    assert_eq!(angle_upper_bound(&config), 347);
    set_angle_diff(&mut config, 0);
    assert_eq!(angle_upper_bound(&config), 360);
    set_angle_diff(&mut config, 360);
    assert_eq!(angle_upper_bound(&config), 0);
}

#[test]
fn angle_bounds_are_set_for_every_difference() {
    let mut config = Config::new();
    set_max_number_of_groups(&mut config, 4);
    for n in [-1000, -1, 0, 11, 180, 361, 400, i32::MAX, 360 - i32::MAX] {
        set_angle_diff(&mut config, n);
        assert_eq!(angle_lower_bound(&config), n);
        assert_eq!(angle_upper_bound(&config), 360 - n);
        assert_eq!(max_number_of_groups(&config), 4);
        assert_eq!(max_minutia_distance(&config), 125);
        assert_eq!(max_minutia_distance_squared(&config), 5625);
        assert_eq!(min_number_of_pairs_to_build_cluster(&config), 3);
        assert_eq!(max_number_of_clusters(&config), 2000);
        assert_eq!(score_threshold(&config), 8);
        assert_eq!(factor_fraction(&config), (1, 20));
        assert!(is_strict_mode(&config));
    }
}

#[test]
fn timeit_hands_on_the_result() {
    assert_eq!(timeit(|| 6 * 7), 42);
    let text = String::from("abc");
    assert_eq!(timeit(move || text.len()), 3);
}
