use bozorth::consts::set_angle_diff;
use bozorth::math::{
    are_angles_equal_with_tolerance, are_angles_opposite, atan2_round_degree, average_angles,
    calculate_slope_in_degrees, normalize_angle, Averager,
};
use bozorth::Config;

#[test]
fn normalize_angle_brings_every_integer_into_the_turn() {
    assert_eq!(normalize_angle(0), 0);
    assert_eq!(normalize_angle(180), 180);
    assert_eq!(normalize_angle(181), -179);
    assert_eq!(normalize_angle(-180), 180);
    assert_eq!(normalize_angle(-179), -179);
    assert_eq!(normalize_angle(360), 0);
    assert_eq!(normalize_angle(540), 180);
    assert_eq!(normalize_angle(-540), 180);
    assert_eq!(normalize_angle(1000), -80);
    assert_eq!(normalize_angle(-1000), 80);
    assert_eq!(normalize_angle(i32::MAX), 127);
    assert_eq!(normalize_angle(i32::MIN), -128);
    for x in -2000..2000 {
        let r = normalize_angle(x);
        assert!(-180 < r && r <= 180);
        assert_eq!((r - x).rem_euclid(360), 0);
    }
}

#[test]
fn opposite_angles_differ_by_half_a_turn() {
    assert!(are_angles_opposite(0, 180));
    assert!(are_angles_opposite(180, 0));
    assert!(are_angles_opposite(-90, 90));
    assert!(are_angles_opposite(90, -90));
    assert!(are_angles_opposite(-179, 1));
    assert!(!are_angles_opposite(0, 0));
    assert!(!are_angles_opposite(0, 179));
    assert!(!are_angles_opposite(180, 180));
    assert!(!are_angles_opposite(i32::MAX, i32::MIN));
    for a in -179..=180 {
        for b in -179..=180 {
            let opposite = are_angles_opposite(a, b);
            assert_eq!(opposite, are_angles_opposite(b, a));
            assert_eq!(opposite, (a - (b + 180)).rem_euclid(360) == 0);
        }
    }
}

#[test]
fn tolerant_equality_is_symmetric_and_reflexive() {
    let config = Config::new();
    for a in -179..=180 {
        assert!(are_angles_equal_with_tolerance(&config, a, a));
        for b in -179..=180 {
            assert_eq!(
                are_angles_equal_with_tolerance(&config, a, b),
                are_angles_equal_with_tolerance(&config, b, a)
            );
        }
    }
}

#[test]
fn tolerant_equality_holds_up_to_the_bounds() {
    let config = Config::new();
    assert!(are_angles_equal_with_tolerance(&config, 0, 11));
    assert!(!are_angles_equal_with_tolerance(&config, 0, 12));
    assert!(!are_angles_equal_with_tolerance(&config, 180, -168));
    assert!(are_angles_equal_with_tolerance(&config, 180, -169));
    assert!(are_angles_equal_with_tolerance(&config, 175, -175));
    assert!(!are_angles_equal_with_tolerance(&config, 90, -90));
    let mut wide = Config::new();
    set_angle_diff(&mut wide, 13);
    assert!(are_angles_equal_with_tolerance(&wide, 0, 13));
    assert!(!are_angles_equal_with_tolerance(&wide, 0, 14));
    assert!(are_angles_equal_with_tolerance(&wide, 0, 347));
    assert!(!are_angles_equal_with_tolerance(&wide, 0, 346));
}

#[test]
fn tolerant_equality_with_bounds_beyond_a_full_turn() {
    let mut config = Config::new();
    set_angle_diff(&mut config, -5);
    assert!(!are_angles_equal_with_tolerance(&config, 7, 7));
    assert!(!are_angles_equal_with_tolerance(&config, 0, 364));
    assert!(are_angles_equal_with_tolerance(&config, 0, 365));
    set_angle_diff(&mut config, 400);
    assert!(are_angles_equal_with_tolerance(&config, 7, 7));
    assert!(are_angles_equal_with_tolerance(&config, 90, -90));
    assert!(are_angles_equal_with_tolerance(&config, -180, 180));
    set_angle_diff(&mut config, 180);
    assert!(are_angles_equal_with_tolerance(&config, 0, 180));
    assert!(are_angles_equal_with_tolerance(&config, 0, 17));
}

#[test]
fn average_of_two_angles() {
    assert_eq!(average_angles(10, 20), 15);
    assert_eq!(average_angles(1, 2), 2);
    assert_eq!(average_angles(-1, -2), -2);
    assert_eq!(average_angles(170, -170), 180);
    assert_eq!(average_angles(-170, 170), 180);
    assert_eq!(average_angles(179, -179), 180);
    assert_eq!(average_angles(90, -90), 0);
    assert_eq!(average_angles(100, -100), 180);
    assert_eq!(average_angles(180, 180), 180);
    assert_eq!(average_angles(-179, -179), -179);
    assert_eq!(average_angles(0, 0), 0);
    assert_eq!(average_angles(0, -1), -1);
}

#[test]
fn average_of_two_angles_is_an_angle() {
    for a in -179..=180 {
        for b in -179..=180 {
            let mean = average_angles(a, b);
            assert!(-180 < mean && mean <= 180);
        }
    }
}

fn float_average(values: &[i32]) -> i32 {
    let mut sum_of_negative = 0i32;
    let mut number_of_negative = 0usize;
    let mut sum_of_positive = 0i32;
    let mut number_of_positive = 0usize;
    for &value in values {
        if value < 0 {
            sum_of_negative += value;
            number_of_negative += 1;
        } else {
            sum_of_positive += value;
            number_of_positive += 1;
        }
    }
    let negatives = number_of_negative.max(1);
    let positives = number_of_positive.max(1);
    let all = number_of_positive + number_of_negative;
    let mut fi = sum_of_positive as f32 / positives as f32 - sum_of_negative as f32 / negatives as f32;
    if fi > 180.0 {
        fi = (sum_of_positive + sum_of_negative + number_of_negative as i32 * 360) as f32 / all as f32;
        if fi > 180.0 {
            fi -= 360.0;
        }
    } else {
        fi = (sum_of_positive + sum_of_negative) as f32 / all as f32;
    }
    let mut average = fi.round() as i32;
    if average <= -180 {
        average += 360;
    }
    average
}

#[test]
fn averager_agrees_with_floating_point() {
    let mut seed: u64 = 7;
    for round in 0..2000 {
        let count = 1 + round % 9;
        let mut values = Vec::new();
        let mut averager = Averager::new();
        for _ in 0..count {
            seed = seed.wrapping_mul(6364136223846793005).wrapping_add(1442695040888963407);
            let value = ((seed >> 33) % 360) as i32 - 179;
            values.push(value);
            averager.push(value);
        }
        assert_eq!(averager.average(), float_average(&values));
    }
}

#[test]
fn averager_of_nothing_is_zero() {
    assert_eq!(Averager::new().average(), 0);
}

#[test]
fn averager_counts_negative_angles_apart() {
    let mut averager = Averager::new();
    averager.push(-10);
    averager.push(30);
    averager.push(0);
    assert_eq!(averager.sum_of_negative, -10);
    assert_eq!(averager.number_of_negative, 1);
    assert_eq!(averager.sum_of_positive, 30);
    assert_eq!(averager.number_of_positive, 2);
    assert_eq!(averager.average(), 7);
}

#[test]
fn atan2_of_chosen_vectors() {
    assert_eq!(atan2_round_degree(0, 5), 90);
    assert_eq!(atan2_round_degree(0, -5), 90);
    assert_eq!(atan2_round_degree(0, 0), 90);
    assert_eq!(atan2_round_degree(1, 0), 0);
    assert_eq!(atan2_round_degree(1, 1), 45);
    assert_eq!(atan2_round_degree(1, -1), -45);
    assert_eq!(atan2_round_degree(-1, 1), 135);
    assert_eq!(atan2_round_degree(-1, -1), -135);
    assert_eq!(atan2_round_degree(-1, 0), 180);
    assert_eq!(atan2_round_degree(-1000, -1), -180);
    assert_eq!(atan2_round_degree(100, 1), 1);
    assert_eq!(atan2_round_degree(1000, 8), 0);
    assert_eq!(atan2_round_degree(1000, 9), 1);
    assert_eq!(atan2_round_degree(3, 4), 53);
    assert_eq!(atan2_round_degree(4, 3), 37);
    assert_eq!(atan2_round_degree(i32::MAX, i32::MAX), 45);
    assert_eq!(atan2_round_degree(i32::MIN, i32::MIN), -135);
}

#[test]
fn atan2_agrees_with_floating_point() {
    for dx in -130..=130 {
        for dy in -130..=130 {
            let expected = if dx == 0 {
                90
            } else {
                (dy as f64).atan2(dx as f64).to_degrees().round() as i32
            };
            assert_eq!(atan2_round_degree(dx, dy), expected, "dx {} dy {}", dx, dy);
        }
    }
}

#[test]
fn atan2_agrees_with_floating_point_on_long_vectors() {
    let mut seed: u64 = 11;
    for _ in 0..20000 {
        seed = seed.wrapping_mul(6364136223846793005).wrapping_add(1442695040888963407);
        let dx = ((seed >> 20) % 2000001) as i32 - 1000000;
        seed = seed.wrapping_mul(6364136223846793005).wrapping_add(1442695040888963407);
        let dy = ((seed >> 20) % 2000001) as i32 - 1000000;
        if dx == 0 {
            continue;
        }
        let exact = (dy as f64).atan2(dx as f64).to_degrees();
        if (exact - exact.floor() - 0.5).abs() < 1e-9 {
            continue;
        }
        assert_eq!(atan2_round_degree(dx, dy), exact.round() as i32, "dx {} dy {}", dx, dy);
    }
}

fn float_slope(dx: i32, dy: i32) -> i32 {
    if dx != 0 {
        let mut fi = (dy as f64 / dx as f64).atan().to_degrees();
        if fi < 0.0 {
            if dx < 0 {
                fi += 180.0;
            }
        } else if dx < 0 {
            fi -= 180.0;
        }
        let fi = fi.round() as i32;
        if fi <= -180 {
            fi + 360
        } else {
            fi
        }
    } else if dy <= 0 {
        -90
    } else {
        90
    }
}

#[test]
fn slope_of_chosen_vectors() {
    assert_eq!(calculate_slope_in_degrees(0, 0), -90);
    assert_eq!(calculate_slope_in_degrees(0, -3), -90);
    assert_eq!(calculate_slope_in_degrees(0, 3), 90);
    assert_eq!(calculate_slope_in_degrees(5, 0), 0);
    assert_eq!(calculate_slope_in_degrees(-5, 0), 180);
    assert_eq!(calculate_slope_in_degrees(-1000, -1), 180);
    assert_eq!(calculate_slope_in_degrees(-1, -1), -135);
    assert_eq!(calculate_slope_in_degrees(-1, 1), 135);
    assert_eq!(calculate_slope_in_degrees(1, 1), 45);
    assert_eq!(calculate_slope_in_degrees(i32::MIN, i32::MAX), 135);
}

#[test]
fn slope_agrees_with_floating_point() {
    for dx in -130..=130 {
        for dy in -130..=130 {
            let slope = calculate_slope_in_degrees(dx, dy);
            assert_eq!(slope, float_slope(dx, dy), "dx {} dy {}", dx, dy);
            assert!(-180 < slope && slope <= 180);
        }
    }
}
