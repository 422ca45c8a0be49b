use bozorth::types::Endpoint;
use bozorth::{Pair, PairHolder};

fn pair(probe_k: u32, gallery_k: u32, probe_j: u32, gallery_j: u32, points: u32) -> Pair {
    Pair {
        delta_theta: 0,
        probe_k: Endpoint(probe_k),
        gallery_k: Endpoint(gallery_k),
        probe_j: Endpoint(probe_j),
        gallery_j: Endpoint(gallery_j),
        points,
    }
}

fn sample() -> PairHolder {
    let mut holder = PairHolder::new();
    holder.push(pair(2, 1, 5, 4, 0));
    holder.push(pair(0, 3, 1, 2, 1));
    holder.push(pair(2, 1, 3, 4, 2));
    holder.push(pair(0, 3, 1, 9, 3));
    holder.push(pair(2, 0, 5, 4, 4));
    holder
}

fn found(items: &[(usize, u32, u32)]) -> Vec<(usize, Endpoint, Endpoint)> {
    items.iter().map(|&(place, a, b)| (place, Endpoint(a), Endpoint(b))).collect()
}

#[test]
fn new_holder_is_empty() {
    let mut holder = PairHolder::new();
    assert!(holder.is_empty());
    assert_eq!(holder.len(), 0);
    holder.prepare();
    assert_eq!(holder.pairs().len(), 0);
    assert_eq!(
        holder.find_pairs_by_first_endpoint(0, Endpoint(0), Endpoint(0)),
        (vec![], 0)
    );
    assert_eq!(
        holder.find_pairs_by_second_endpoint(0, Endpoint(0), Endpoint(0)),
        (vec![], 0)
    );
}

#[test]
fn prepare_sorts_by_first_endpoints_and_keeps_equal_keys_in_order() {
    let mut holder = sample();
    assert_eq!(holder.len(), 5);
    assert!(!holder.is_empty());
    holder.prepare();
    let order: Vec<u32> = holder.pairs().iter().map(|pair| pair.points).collect();
    assert_eq!(order, vec![1, 3, 4, 2, 0]);
    assert_eq!(holder.get(0).points, 1);
    assert_eq!(holder.get(4).points, 0);
    assert_eq!(holder.get(3).probe_j, Endpoint(3));
}

#[test]
fn prepare_twice_changes_nothing() {
    let mut holder = sample();
    holder.prepare();
    holder.prepare();
    let order: Vec<u32> = holder.pairs().iter().map(|pair| pair.points).collect();
    assert_eq!(order, vec![1, 3, 4, 2, 0]);
}

#[test]
fn pairs_pushed_after_prepare_are_sorted_in_by_the_next_prepare() {
    let mut holder = sample();
    holder.prepare();
    holder.push(pair(1, 1, 1, 1, 5));
    holder.push(pair(0, 3, 1, 0, 6));
    holder.prepare();
    let order: Vec<u32> = holder.pairs().iter().map(|pair| pair.points).collect();
    assert_eq!(order, vec![1, 3, 6, 5, 4, 2, 0]);
    assert_eq!(
        holder.find_pairs_by_first_endpoint(0, Endpoint(1), Endpoint(1)),
        (found(&[(3, 1, 1)]), 4)
    );
    assert_eq!(
        holder.find_pairs_by_first_endpoint(0, Endpoint(2), Endpoint(1)),
        (found(&[(5, 3, 4), (6, 5, 4)]), 7)
    );
}

#[test]
fn lookup_by_first_endpoints_gives_a_run_of_places() {
    let mut holder = sample();
    holder.prepare();
    assert_eq!(
        holder.find_pairs_by_first_endpoint(0, Endpoint(2), Endpoint(1)),
        (found(&[(3, 3, 4), (4, 5, 4)]), 5)
    );
    assert_eq!(
        holder.find_pairs_by_first_endpoint(4, Endpoint(2), Endpoint(1)),
        (found(&[(4, 5, 4)]), 5)
    );
    assert_eq!(
        holder.find_pairs_by_first_endpoint(5, Endpoint(2), Endpoint(1)),
        (vec![], 5)
    );
    assert_eq!(
        holder.find_pairs_by_first_endpoint(0, Endpoint(0), Endpoint(3)),
        (found(&[(0, 1, 2), (1, 1, 9)]), 2)
    );
    assert_eq!(
        holder.find_pairs_by_first_endpoint(1, Endpoint(0), Endpoint(3)),
        (found(&[(1, 1, 9)]), 2)
    );
    assert_eq!(
        holder.find_pairs_by_first_endpoint(3, Endpoint(0), Endpoint(3)),
        (vec![], 2)
    );
    assert_eq!(
        holder.find_pairs_by_first_endpoint(0, Endpoint(2), Endpoint(0)),
        (found(&[(2, 5, 4)]), 3)
    );
}

#[test]
fn lookup_of_endpoints_without_pairs_gives_the_offset_back() {
    let mut holder = sample();
    holder.prepare();
    assert_eq!(
        holder.find_pairs_by_first_endpoint(0, Endpoint(7), Endpoint(7)),
        (vec![], 0)
    );
    assert_eq!(
        holder.find_pairs_by_first_endpoint(3, Endpoint(7), Endpoint(7)),
        (vec![], 3)
    );
    assert_eq!(
        holder.find_pairs_by_second_endpoint(2, Endpoint(9), Endpoint(9)),
        (vec![], 2)
    );
    assert_eq!(
        holder.find_pairs_by_first_endpoint(100, Endpoint(199), Endpoint(199)),
        (vec![], 100)
    );
}

#[test]
fn lookup_by_second_endpoints_gives_places_of_pairs() {
    let mut holder = sample();
    holder.prepare();
    assert_eq!(
        holder.find_pairs_by_second_endpoint(0, Endpoint(5), Endpoint(4)),
        (found(&[(2, 2, 0), (4, 2, 1)]), 5)
    );
    assert_eq!(
        holder.find_pairs_by_second_endpoint(3, Endpoint(5), Endpoint(4)),
        (found(&[(4, 2, 1)]), 5)
    );
    assert_eq!(
        holder.find_pairs_by_second_endpoint(5, Endpoint(5), Endpoint(4)),
        (vec![], 5)
    );
    assert_eq!(
        holder.find_pairs_by_second_endpoint(0, Endpoint(1), Endpoint(2)),
        (found(&[(0, 0, 3)]), 1)
    );
    assert_eq!(
        holder.find_pairs_by_second_endpoint(0, Endpoint(1), Endpoint(9)),
        (found(&[(1, 0, 3)]), 2)
    );
    assert_eq!(
        holder.find_pairs_by_second_endpoint(0, Endpoint(3), Endpoint(4)),
        (found(&[(3, 2, 1)]), 3)
    );
}

#[test]
fn clear_drops_pairs_and_lookups() {
    let mut holder = sample();
    holder.prepare();
    holder.clear();
    assert!(holder.is_empty());
    assert_eq!(
        holder.find_pairs_by_first_endpoint(0, Endpoint(2), Endpoint(1)),
        (vec![], 0)
    );
    holder.push(pair(2, 1, 5, 4, 9));
    holder.prepare();
    assert_eq!(
        holder.find_pairs_by_first_endpoint(0, Endpoint(2), Endpoint(1)),
        (found(&[(0, 5, 4)]), 1)
    );
    assert_eq!(
        holder.find_pairs_by_first_endpoint(0, Endpoint(0), Endpoint(3)),
        (vec![], 0)
    );
}
