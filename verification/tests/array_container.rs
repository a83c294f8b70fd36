use concurrent_roaring::container::array::ArrayContainer;

#[test]
fn array_insert_remove_contains_boundaries() {
    let mut a = ArrayContainer::new();
    assert!(a.insert(0));
    assert!(a.insert(65535));
    assert!(a.contains(0));
    assert!(a.contains(65535));
    assert!(!a.contains(1));
    assert_eq!(a.cardinality(), 2);

    // duplicate insert
    assert!(!a.insert(0));
    assert_eq!(a.cardinality(), 2);

    // remove present / absent
    assert!(a.remove(0));
    assert!(!a.remove(0));
    assert!(!a.remove(12345));
    assert!(!a.contains(0));
    assert!(a.contains(65535));
}

#[test]
fn interleaved_keeps_sorted() {
    let mut a = ArrayContainer::new();
    for v in [500u16, 3, 60000, 3, 12, 500, 0] {
        a.insert(v);
    }
    assert!(a.as_slice().windows(2).all(|w| w[0] < w[1]));
    assert_eq!(a.as_slice(), &[0, 3, 12, 500, 60000]);
}

#[test]
fn num_runs_basic() {
    let mut a = ArrayContainer::new();
    assert_eq!(a.num_runs(), 0);
    for v in [0u16, 1, 2, 5, 6, 100] {
        a.insert(v);
    }
    // runs: {0,1,2}, {5,6}, {100} => 3
    assert_eq!(a.num_runs(), 3);
}

#[test]
fn array_empty_and_full_range_edges() {
    let mut a = ArrayContainer::default();
    assert!(a.is_empty());
    assert_eq!(a.num_runs(), 0);
    a.insert(65535);
    a.insert(65534);
    assert_eq!(a.num_runs(), 1);
    a.insert(0);
    assert_eq!(a.num_runs(), 2);
    assert!(!a.is_empty());
    let c = a.clone();
    assert_eq!(c.as_slice(), &[0, 65534, 65535]);
}
