use mst_cluster::metric::distance;

#[test]
fn distance_sums_absolute_differences() {
    assert_eq!(distance(&vec![0u8, 0], &vec![1u8, 2]), 3);
    assert_eq!(distance(&vec![15u8, 15], &vec![0u8, 0]), 30);
    assert_eq!(distance(&vec![7u8], &vec![7u8]), 0);
}

#[test]
fn distance_of_empty_records_is_zero() {
    assert_eq!(distance(&Vec::<u8>::new(), &Vec::<u8>::new()), 0);
}

#[test]
fn distance_is_symmetric_on_samples() {
    let a = vec![0u8, 3, 15];
    let b = vec![9u8, 1, 4];
    assert_eq!(distance(&a, &b), distance(&b, &a));
}

#[test]
fn distance_to_self_is_zero() {
    let a = vec![5u8, 0, 12, 3];
    assert_eq!(distance(&a, &a), 0);
}

#[test]
fn triangle_inequality_on_samples() {
    let a = vec![0u8, 0];
    let b = vec![7u8, 9];
    let c = vec![15u8, 1];
    assert!(distance(&a, &c) <= distance(&a, &b) + distance(&b, &c));
}
