use concurrent_roaring::container::array::ArrayContainer;
use concurrent_roaring::container::bitmap::BitmapContainer;
use concurrent_roaring::container::run::RunContainer;
use concurrent_roaring::container::Container;

#[test]
fn optimize_selects_run_then_mutation_demotes_to_bitmap() {
    // A single long run: optimize prefers Run (4 bytes) over bitmap (8192).
    let mut c = Container::Array(ArrayContainer::new());
    for v in 0u16..=9000 {
        c.insert(v);
    }
    c.optimize();
    assert!(matches!(c, Container::Run(_)));

    // Removing every other value splits the run repeatedly; once the run list exceeds the
    // bitmap in size the container demotes to Bitmap.
    let mut v = 1u16;
    while matches!(c, Container::Run(_)) && v < 9000 {
        c.remove(v);
        v = v.saturating_add(2);
    }
    assert!(matches!(c, Container::Bitmap(_)));
}

#[test]
fn run_insert_of_isolated_values_demotes_to_bitmap() {
    let mut c = Container::Array(ArrayContainer::new());
    for v in 0u16..=8000 {
        c.insert(v);
    }
    c.optimize();
    assert!(matches!(c, Container::Run(_)));
    // Isolated inserts (gap of 1) each add a new run until the list bloats past a bitmap.
    let mut v = 8002u16;
    while matches!(c, Container::Run(_)) && v < 65534 {
        c.insert(v);
        v = v.saturating_add(2);
    }
    assert!(matches!(c, Container::Bitmap(_)));
}

#[test]
fn array_to_bitmap_to_array_thresholds() {
    let mut c = Container::Array(ArrayContainer::new());
    for v in 0u16..5000 {
        assert!(c.insert(v));
    }
    assert!(matches!(c, Container::Bitmap(_)));
    assert_eq!(c.cardinality(), 5000);
    for v in 0u16..5000 {
        assert!(c.contains(v));
    }

    // Remove 904 values (5000 -> 4096) to land exactly on the array threshold.
    for v in 0u16..904 {
        assert!(c.remove(v));
    }
    assert_eq!(c.cardinality(), 4096);
    assert!(matches!(c, Container::Array(_)));
    for v in 904u16..5000 {
        assert!(c.contains(v));
    }
    for v in 0u16..904 {
        assert!(!c.contains(v));
    }
}

#[test]
fn array_converts_on_the_4097th_value_only() {
    let mut c = Container::single(0);
    for v in 1u16..4096 {
        c.insert(v);
    }
    assert!(matches!(c, Container::Array(_)));
    assert_eq!(c.cardinality(), 4096);
    // A duplicate keeps the array.
    assert!(!c.insert(5));
    assert!(matches!(c, Container::Array(_)));
    assert!(c.insert(60000));
    assert!(matches!(c, Container::Bitmap(_)));
    assert_eq!(c.cardinality(), 4097);
}

#[test]
fn optimize_picks_smallest_and_keeps_ties() {
    // 3 values in one run: array 6 bytes, run 4 bytes: run wins.
    let mut c = Container::single(1);
    c.insert(2);
    c.insert(3);
    c.optimize();
    assert!(matches!(c, Container::Run(_)));
    c.optimize();
    assert!(matches!(c, Container::Run(_)));
    // 2 isolated values: array 4 bytes, run 8 bytes: array stays.
    let mut d = Container::single(1);
    d.insert(3);
    d.optimize();
    assert!(matches!(d, Container::Array(_)));
    // 2 adjacent values: array 4 bytes, run 4 bytes: a tie keeps the array.
    let mut e = Container::single(1);
    e.insert(2);
    e.optimize();
    assert!(matches!(e, Container::Array(_)));
    assert_eq!(e.num_runs(), 1);
}

#[test]
fn num_runs_agree_across_representations() {
    let mut c = Container::Array(ArrayContainer::new());
    for v in 0u16..5000 {
        if v % 10 < 5 {
            c.insert(v);
        }
    }
    let as_array_runs = c.num_runs();
    assert_eq!(as_array_runs, 500);
    for v in 20000u16..22000 {
        c.insert(v);
    }
    assert!(matches!(c, Container::Bitmap(_)));
    assert_eq!(c.num_runs(), 501);
    c.optimize();
    assert!(matches!(c, Container::Run(_)));
    assert_eq!(c.num_runs(), 501);
    assert_eq!(c.cardinality(), 4500);
    assert!(!c.is_empty());
}

#[test]
fn equal_sets_in_one_representation_compare_equal() {
    let mut a = ArrayContainer::new();
    for v in [5u16, 6, 7, 100, 4000, 65535] {
        a.insert(v);
    }
    let b = BitmapContainer::from_array(&a);
    let r = RunContainer::from_bitmap(&b);
    assert_eq!(r.to_bitmap(), b);
    assert_eq!(RunContainer::from_array(&a), r);
    assert_eq!(b.to_array(), a);
    let mut a2 = ArrayContainer::new();
    for v in [65535u16, 4000, 100, 7, 6, 5] {
        a2.insert(v);
    }
    assert_eq!(a2, a);
    let mut c = Container::Array(a);
    for v in 200u16..300 {
        c.insert(v);
    }
    c.optimize();
    assert!(matches!(c, Container::Run(_)));
    let snapshot = c.clone();
    c.optimize();
    assert_eq!(c, snapshot);
}

#[test]
fn oversized_array_built_directly_still_works() {
    let mut a = ArrayContainer::new();
    for v in 0u16..5000 {
        a.insert(v * 2);
    }
    let mut c = Container::Array(a);
    // Only the 4097th value converts an array; past it the array simply grows.
    assert!(c.insert(1));
    assert!(matches!(c, Container::Array(_)));
    assert_eq!(c.cardinality(), 5001);
    assert!(c.remove(0));
    assert!(matches!(c, Container::Array(_)));
    assert!(c.contains(9998) && !c.contains(0));
    c.optimize();
    assert!(matches!(c, Container::Bitmap(_)));
    assert_eq!(c.cardinality(), 5000);
    assert_eq!(c.num_runs(), 4999);
}

#[test]
fn bloated_run_list_of_few_values_becomes_an_array() {
    let mut c = Container::single(0);
    for v in 1u16..=9 {
        c.insert(v);
    }
    c.optimize();
    assert!(matches!(c, Container::Run(_)));
    for k in 0u16..2047 {
        c.insert(20 + 2 * k);
    }
    assert!(matches!(c, Container::Run(_)));
    assert_eq!(c.num_runs(), 2048);
    assert!(c.insert(4114));
    assert_eq!(c.cardinality(), 2058);
    assert_eq!(c.num_runs(), 2049);
    assert!(matches!(c, Container::Array(_)));
    // Removing splits a run of a bloated-to-be list the same way.
    let mut d = Container::single(0);
    for v in 1u16..=4200 {
        d.insert(v);
    }
    d.optimize();
    assert!(matches!(d, Container::Run(_)));
    let mut v = 1u16;
    while matches!(d, Container::Run(_)) {
        d.remove(v);
        v += 2;
    }
    assert!(matches!(d, Container::Array(_)));
    assert!(d.cardinality() <= 4096);
}
