use bozorth::set_intersection::{collect_intersection, intersection_of_sorted};

#[test]
fn simple() {
    let a: Vec<u32> = (2..10).collect();
    let b: Vec<u32> = (3..5).collect();

    let mut c = intersection_of_sorted(&a, &b);
    assert_eq!(c.next(), Some(3));
    assert_eq!(c.next(), Some(4));
    assert_eq!(c.next(), None);
}

#[test]
fn intersection_of_disjoint_lists_is_empty() {
    let a: Vec<u32> = vec![1, 3, 5];
    let b: Vec<u32> = vec![2, 4, 6];
    assert_eq!(collect_intersection(&a, &b), Vec::<u32>::new());
}

#[test]
fn intersection_keeps_the_order_of_the_lists() {
    let a: Vec<u32> = vec![1, 2, 4, 8, 16, 32];
    let b: Vec<u32> = vec![2, 3, 4, 5, 32, 64];
    assert_eq!(collect_intersection(&a, &b), vec![2, 4, 32]);
}
