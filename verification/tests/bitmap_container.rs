use concurrent_roaring::container::array::ArrayContainer;
use concurrent_roaring::container::bitmap::BitmapContainer;

#[test]
fn bitmap_insert_remove_contains_boundaries() {
    let mut b = BitmapContainer::new();
    assert!(b.insert(0));
    assert!(b.insert(65535));
    assert!(!b.insert(0));
    assert_eq!(b.cardinality(), 2);
    assert!(b.contains(0));
    assert!(b.contains(65535));
    assert!(!b.contains(1));
    assert!(b.remove(0));
    assert!(!b.remove(0));
    assert_eq!(b.cardinality(), 1);
}

#[test]
fn num_runs_word_boundary() {
    // A run spanning the word-0 / word-1 boundary: bits 63 and 64 both set, contiguous.
    let mut b = BitmapContainer::new();
    b.insert(63);
    b.insert(64);
    // One run of two adjacent bits crossing the boundary.
    assert_eq!(b.num_runs(), 1);

    // Two separated runs, one of them straddling the boundary.
    let mut b2 = BitmapContainer::new();
    for v in [10u16, 11, 12, 63, 64, 65] {
        b2.insert(v);
    }
    assert_eq!(b2.num_runs(), 2);

    // Non-adjacent across boundary (bit 63 set, bit 64 clear, bit 65 set): two runs.
    let mut b3 = BitmapContainer::new();
    b3.insert(63);
    b3.insert(65);
    assert_eq!(b3.num_runs(), 2);
}

#[test]
fn array_bitmap_round_trip() {
    let mut a = ArrayContainer::new();
    for v in [0u16, 1, 2, 63, 64, 1000, 40000, 65535] {
        a.insert(v);
    }
    let b = BitmapContainer::from_array(&a);
    assert_eq!(b.cardinality(), 8);
    for v in [0u16, 1, 2, 63, 64, 1000, 40000, 65535] {
        assert!(b.contains(v));
    }
    assert!(!b.contains(3));
    assert_eq!(b.num_runs(), 5);
    let back = b.to_array();
    assert_eq!(back.as_slice(), a.as_slice());
}

#[test]
fn bitmap_words_hold_the_bits() {
    let mut b = BitmapContainer::default();
    assert!(b.is_empty());
    b.insert(65);
    b.insert(0);
    let w = b.words();
    assert_eq!(w.len(), 1024);
    assert_eq!(w[0], 1);
    assert_eq!(w[1], 2);
    assert_eq!(w[2], 0);
}
