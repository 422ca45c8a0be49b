use bozorth::parsing::RawMinutiaCombined;
use bozorth::types::MinutiaKind;
use bozorth::weird_sort::{partition_dec, qsort_decreasing, select_pivot, sort_order_decreasing, Cell};
use bozorth::{prune, set_mode, Config};

fn raw(x: i32, y: i32, t: i32, q: i32) -> RawMinutiaCombined {
    RawMinutiaCombined { x, y, t, q, kind: if t % 2 == 0 { MinutiaKind::Type0 } else { MinutiaKind::Type1 } }
}

fn cells(values: &[i32]) -> Vec<Cell> {
    values.iter().enumerate().map(|(index, &value)| Cell { index, value }).collect()
}

#[test]
fn legacy_order_of_chosen_values() {
    assert_eq!(sort_order_decreasing(&[5, 1, 5, 3, 5, 2, 5, 4]), vec![0, 6, 2, 4, 7, 3, 5, 1]);
    assert_eq!(sort_order_decreasing(&[1, 1, 1, 1, 1]), vec![0, 1, 2, 3, 4]);
    assert_eq!(sort_order_decreasing(&[3, 9, 2, 9, 7, 9, 1]), vec![5, 1, 3, 4, 0, 2, 6]);
    assert_eq!(sort_order_decreasing(&[10]), vec![0]);
    assert_eq!(sort_order_decreasing(&[2, 1]), vec![0, 1]);
    assert_eq!(sort_order_decreasing(&[1, 2]), vec![1, 0]);
    assert_eq!(
        sort_order_decreasing(&[4, 4, 8, 8, 4, 8, 4, 8, 4, 4]),
        vec![5, 2, 3, 7, 1, 0, 6, 4, 8, 9]
    );
    assert_eq!(sort_order_decreasing(&[i32::MIN, i32::MAX, 0]), vec![1, 2, 0]);
}

#[test]
fn legacy_order_holds_every_place_once_and_never_rises() {
    let mut seed: u64 = 5;
    for round in 0..300 {
        let count = 1 + round % 40;
        let mut values = Vec::new();
        for _ in 0..count {
            seed = seed.wrapping_mul(6364136223846793005).wrapping_add(1442695040888963407);
            values.push(((seed >> 40) % 7) as i32 - 3);
        }
        let order = sort_order_decreasing(&values);
        let mut places = order.clone();
        places.sort();
        assert_eq!(places, (0..count).collect::<Vec<usize>>());
        assert!(order.windows(2).all(|w| values[w[0]] >= values[w[1]]));
    }
}

#[test]
fn pivot_is_the_median_of_three() {
    assert_eq!(select_pivot(&cells(&[1, 2, 3]), 0, 2), 1);
    assert_eq!(select_pivot(&cells(&[1, 3, 2]), 0, 2), 2);
    assert_eq!(select_pivot(&cells(&[2, 3, 1]), 0, 2), 0);
    assert_eq!(select_pivot(&cells(&[2, 1, 3]), 0, 2), 0);
    assert_eq!(select_pivot(&cells(&[3, 2, 1]), 0, 2), 1);
    assert_eq!(select_pivot(&cells(&[3, 1, 2]), 0, 2), 2);
    assert_eq!(select_pivot(&cells(&[1, 1, 1]), 0, 2), 1);
    assert_eq!(select_pivot(&cells(&[2, 2, 1]), 0, 2), 0);
    assert_eq!(select_pivot(&cells(&[2, 1, 2]), 0, 2), 2);
    assert_eq!(select_pivot(&cells(&[9, 1, 2, 3, 9]), 1, 3), 2);
    assert_eq!(select_pivot(&cells(&[7]), 0, 0), 0);
    assert_eq!(select_pivot(&cells(&[7, 8]), 0, 1), 0);
    assert_eq!(select_pivot(&cells(&[8, 7]), 0, 1), 0);
}

#[test]
fn partition_puts_greater_values_before_the_pivot() {
    let mut list = cells(&[1, 5, 3, 4, 2]);
    let ranges = partition_dec(&mut list, 2, 0, 4);
    let values: Vec<i32> = list.iter().map(|cell| cell.value).collect();
    assert_eq!(values, vec![4, 5, 3, 1, 2]);
    assert_eq!(ranges, (0, 1, 2, 3, 4, 2));
    let places: Vec<usize> = list.iter().map(|cell| cell.index).collect();
    assert_eq!(places, vec![3, 1, 2, 0, 4]);
}

#[test]
fn partition_with_the_pivot_at_the_start_names_a_range_of_one() {
    let mut list = cells(&[9, 5, 3]);
    let ranges = partition_dec(&mut list, 0, 0, 2);
    let values: Vec<i32> = list.iter().map(|cell| cell.value).collect();
    assert_eq!(values, vec![9, 5, 3]);
    assert_eq!(ranges, (0, 0, 1, 1, 2, 2));
    let mut inner = cells(&[9, 5, 3, 1]);
    assert_eq!(partition_dec(&mut inner, 1, 1, 3), (1, 0, 0, 2, 3, 2));
}

#[test]
fn qsort_sorts_a_range_only() {
    let mut list = cells(&[1, 2, 3, 4, 5, 6]);
    qsort_decreasing(&mut list, 1, 4);
    let values: Vec<i32> = list.iter().map(|cell| cell.value).collect();
    assert_eq!(values, vec![1, 5, 4, 3, 2, 6]);
}

#[test]
fn prune_keeps_short_lists_whole_and_sorts_them_by_place() {
    let config = Config::new();
    let list = vec![raw(30, 1, 10, 5), raw(10, 2, -20, 9), raw(10, 1, 181, 1), raw(20, 0, 7, 1)];
    let pruned = prune(&config, &list, 4);
    let found: Vec<(i32, i32, i32, MinutiaKind)> = pruned.iter().map(|m| (m.x, m.y, m.theta, m.kind)).collect();
    assert_eq!(
        found,
        vec![
            (10, 1, 181, MinutiaKind::Type1),
            (10, 2, -20, MinutiaKind::Type0),
            (20, 0, 7, MinutiaKind::Type1),
            (30, 1, 10, MinutiaKind::Type0),
        ]
    );
    assert_eq!(prune(&config, &list, 150).len(), 4);
    assert_eq!(prune(&config, &[], 150).len(), 0);
}

#[test]
fn prune_keeps_minutiae_at_one_place_in_their_order() {
    let config = Config::new();
    let list = vec![raw(5, 5, 1, 0), raw(1, 1, 2, 0), raw(5, 5, 3, 0), raw(5, 5, 4, 0)];
    let thetas: Vec<i32> = prune(&config, &list, 10).iter().map(|m| m.theta).collect();
    assert_eq!(thetas, vec![2, 1, 3, 4]);
}

fn ties() -> Vec<RawMinutiaCombined> {
    [5, 1, 5, 3, 5, 2, 5, 4]
        .iter()
        .enumerate()
        .map(|(i, &q)| raw(100 - i as i32, 0, i as i32, q))
        .collect()
}

#[test]
fn strict_prune_decides_ties_as_the_legacy_sort_does() {
    let config = Config::new();
    let thetas: Vec<i32> = prune(&config, &ties(), 3).iter().map(|m| m.theta).collect();
    assert_eq!(thetas, vec![6, 2, 0]);
    let five: Vec<i32> = prune(&config, &ties(), 5).iter().map(|m| m.theta).collect();
    assert_eq!(five, vec![7, 6, 4, 2, 0]);
    assert_eq!(prune(&config, &ties(), 0).len(), 0);
}

#[test]
fn relaxed_prune_decides_ties_by_the_order_of_the_list() {
    let mut config = Config::new();
    set_mode(&mut config, false);
    let thetas: Vec<i32> = prune(&config, &ties(), 3).iter().map(|m| m.theta).collect();
    assert_eq!(thetas, vec![4, 2, 0]);
    let five: Vec<i32> = prune(&config, &ties(), 5).iter().map(|m| m.theta).collect();
    assert_eq!(five, vec![7, 6, 4, 2, 0]);
    let extreme = vec![raw(1, 0, 0, i32::MIN), raw(2, 0, 1, i32::MAX), raw(3, 0, 2, 0)];
    let kept: Vec<i32> = prune(&config, &extreme, 2).iter().map(|m| m.theta).collect();
    assert_eq!(kept, vec![1, 2]);
}

#[test]
fn prune_keeps_the_best_qualities() {
    let mut seed: u64 = 17;
    for strict in [true, false] {
        let mut config = Config::new();
        set_mode(&mut config, strict);
        for round in 0..50 {
            let count = 20 + round;
            let mut list = Vec::new();
            for i in 0..count {
                seed = seed.wrapping_mul(6364136223846793005).wrapping_add(1442695040888963407);
                let q = ((seed >> 40) % 10) as i32;
                seed = seed.wrapping_mul(6364136223846793005).wrapping_add(1442695040888963407);
                let x = ((seed >> 40) % 50) as i32;
                list.push(RawMinutiaCombined { x, y: i, t: q, q, kind: MinutiaKind::Type0 });
            }
            let pruned = prune(&config, &list, 15);
            assert_eq!(pruned.len(), 15);
            assert!(pruned.windows(2).all(|w| (w[0].x, w[0].y) <= (w[1].x, w[1].y)));
            let worst_kept = pruned.iter().map(|m| m.theta).min().unwrap();
            let mut qualities: Vec<i32> = list.iter().map(|m| m.q).collect();
            qualities.sort();
            qualities.reverse();
            assert_eq!(worst_kept, qualities[14]);
            let mut kept: Vec<i32> = pruned.iter().map(|m| m.theta).collect();
            kept.sort();
            kept.reverse();
            assert_eq!(kept, qualities[..15].to_vec());
        }
    }
}
