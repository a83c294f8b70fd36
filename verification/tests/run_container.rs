use concurrent_roaring::container::array::ArrayContainer;
use concurrent_roaring::container::bitmap::BitmapContainer;
use concurrent_roaring::container::run::RunContainer;

fn assert_run_invariants(r: &RunContainer) {
    let runs = r.runs();
    let mut expected_card = 0u32;
    for (i, run) in runs.iter().enumerate() {
        expected_card += run.len as u32 + 1;
        if i > 0 {
            let prev = runs[i - 1];
            let prev_end = prev.start as u32 + prev.len as u32;
            // sorted, non-overlapping, non-adjacent: next.start > prev_end + 1
            assert!(run.start as u32 > prev_end + 1, "runs adjacent/overlapping");
        }
    }
    assert_eq!(expected_card, r.cardinality(), "cached cardinality wrong");
}

#[test]
fn insert_extend_merge_split() {
    let mut r = RunContainer::new();
    // Two separated runs.
    for v in [10u16, 11, 12, 20, 21] {
        assert!(r.insert(v));
    }
    assert_eq!(r.num_runs(), 2);
    // Fill the gap at 13..=19: eventually the two runs merge into one.
    for v in 13u16..=19 {
        assert!(r.insert(v));
    }
    assert_eq!(r.num_runs(), 1);
    assert_eq!(r.cardinality(), 12);
    assert_run_invariants(&r);
    // Interior removal splits.
    assert!(r.remove(15));
    assert_eq!(r.num_runs(), 2);
    assert!(!r.contains(15));
    assert_run_invariants(&r);
}

#[test]
fn run_remove_edges_and_extremes() {
    let mut r = RunContainer::default();
    assert!(r.is_empty());
    assert!(r.insert(65535));
    assert!(r.insert(65534));
    assert!(r.insert(0));
    assert_eq!(r.num_runs(), 2);
    assert!(r.remove(65535));
    assert!(r.remove(0));
    assert!(!r.remove(0));
    assert_eq!(r.cardinality(), 1);
    assert!(r.contains(65534));
    assert_run_invariants(&r);
    // Shrink from both ends of a run.
    for v in 100u16..=105 {
        r.insert(v);
    }
    assert!(r.remove(100));
    assert!(r.remove(105));
    assert_eq!(r.runs()[0].start, 101);
    assert_eq!(r.runs()[0].len, 3);
    assert_run_invariants(&r);
}

#[test]
fn run_conversions_round_trip() {
    let mut a = ArrayContainer::new();
    for v in [1u16, 2, 3, 10, 64, 65, 65535] {
        a.insert(v);
    }
    let r = RunContainer::from_array(&a);
    assert_eq!(r.num_runs(), 4);
    assert_eq!(r.cardinality(), 7);
    assert_run_invariants(&r);
    assert_eq!(r.to_array().as_slice(), a.as_slice());
    let b = BitmapContainer::from_array(&a);
    let rb = RunContainer::from_bitmap(&b);
    assert_eq!(rb.runs(), r.runs());
    let back = r.to_bitmap();
    assert_eq!(back.words(), b.words());
}
