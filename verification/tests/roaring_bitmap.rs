use concurrent_roaring::bitmap::{join, split};
use concurrent_roaring::RoaringBitmap;
use std::collections::BTreeSet;

#[test]
fn split_join_roundtrip() {
    for x in [0u32, 1, 0xFFFF, 0x1_0000, 0x1_2345, u32::MAX] {
        let (k, l) = split(x);
        assert_eq!(join(k, l), x);
    }
    assert_eq!(split(0), (0, 0));
    assert_eq!(split(0xFFFF), (0, 0xFFFF));
    assert_eq!(split(0x1_0000), (1, 0));
    assert_eq!(split(u32::MAX), (0xFFFF, 0xFFFF));
}

#[test]
fn boundary_values() {
    let mut b = RoaringBitmap::new();
    for x in [0u32, u32::MAX, 0xFFFF, 0x1_0000] {
        assert!(b.insert(x));
    }
    assert_eq!(b.len(), 4);
    for x in [0u32, u32::MAX, 0xFFFF, 0x1_0000] {
        assert!(b.contains(x));
    }
    // 0xFFFF and 0x1_0000 straddle the key boundary: two distinct containers.
    assert!(!b.contains(1));
    assert!(b.assert_invariants());

    assert!(b.remove(0x1_0000));
    assert!(!b.contains(0x1_0000));
    assert!(!b.remove(0x1_0000));
    assert_eq!(b.len(), 3);
    assert!(b.assert_invariants());
}

#[test]
fn empty_container_dropped_and_reused() {
    let mut b = RoaringBitmap::new();
    assert!(b.insert(0x5_0001));
    assert!(b.remove(0x5_0001));
    assert!(b.is_empty());
    // Re-inserting into a just-emptied key must succeed (entry was dropped, then recreated).
    assert!(b.insert(0x5_0001));
    assert_eq!(b.len(), 1);
    assert!(b.assert_invariants());
}

#[test]
fn split_join_exact_values() {
    assert_eq!(split(0x1234_5678), (0x1234, 0x5678));
    assert_eq!(join(0xABCD, 0x0001), 0xABCD_0001);
    assert_eq!(join(0, 0), 0);
    assert_eq!(join(0xFFFF, 0xFFFF), u32::MAX);
}

#[test]
fn insert_returns_whether_absent_and_remove_whether_present() {
    let mut b = RoaringBitmap::new();
    assert!(b.is_empty());
    assert!(b.insert(7));
    assert!(!b.insert(7));
    assert!(b.contains(7));
    assert!(!b.contains(8));
    assert!(b.remove(7));
    assert!(!b.remove(7));
    assert!(!b.contains(7));
    assert!(b.is_empty());
    assert_eq!(b.len(), 0);
}

#[test]
fn len_counts_across_containers_and_representations() {
    let mut b = RoaringBitmap::new();
    for x in 0u32..5000 {
        b.insert(x);
    }
    for x in 0u32..10 {
        b.insert(0x7_0000 + 2 * x);
    }
    b.insert(u32::MAX);
    assert_eq!(b.len(), 5011);
    b.optimize();
    assert_eq!(b.len(), 5011);
    for x in 0u32..5000 {
        assert!(b.contains(x));
    }
    assert!(!b.contains(5000));
    assert!(b.contains(0x7_0012));
    assert!(!b.contains(0x7_0013));
    assert!(b.assert_invariants());
}

#[test]
fn and_or_exact_results() {
    let mut a = RoaringBitmap::new();
    let mut b = RoaringBitmap::new();
    for x in [1u32, 2, 3, 100, 70_000, 70_001] {
        a.insert(x);
    }
    for x in [2u32, 3, 4, 70_001, 200_000] {
        b.insert(x);
    }
    let i = a.and(&b);
    assert_eq!(i.len(), 3);
    for x in [2u32, 3, 70_001] {
        assert!(i.contains(x));
    }
    for x in [1u32, 4, 100, 70_000, 200_000] {
        assert!(!i.contains(x));
    }
    let u = a.or(&b);
    assert_eq!(u.len(), 8);
    for x in [1u32, 2, 3, 4, 100, 70_000, 70_001, 200_000] {
        assert!(u.contains(x));
    }
    assert!(i.assert_invariants());
    assert!(u.assert_invariants());
}

#[test]
fn and_drops_empty_intersections() {
    let mut a = RoaringBitmap::new();
    let mut b = RoaringBitmap::new();
    a.insert(0x1_0001);
    b.insert(0x1_0002);
    a.insert(5);
    b.insert(5);
    let i = a.and(&b);
    assert_eq!(i.len(), 1);
    assert!(i.contains(5));
    assert!(i.assert_invariants());
}

#[test]
fn set_operations_commute_and_bound() {
    let mut a = RoaringBitmap::new();
    let mut b = RoaringBitmap::new();
    for x in 0u32..3000 {
        a.insert(x * 7);
        b.insert(x * 11);
    }
    a.optimize();
    let ab = a.and(&b);
    let ba = b.and(&a);
    assert_eq!(ab.len(), ba.len());
    assert_eq!(a.or(&b).len(), b.or(&a).len());
    for x in 0u32..21_000 {
        assert_eq!(ab.contains(x), a.contains(x) && b.contains(x));
        assert_eq!(a.or(&b).contains(x), a.contains(x) || b.contains(x));
    }
}

#[test]
fn optimize_preserves_membership() {
    let mut b = RoaringBitmap::new();
    for x in 0u32..20_000 {
        b.insert(x);
    }
    for x in (100_000u32..110_000).step_by(3) {
        b.insert(x);
    }
    let before = b.len();
    b.optimize();
    assert_eq!(b.len(), before);
    for x in 0u32..20_000 {
        assert!(b.contains(x));
    }
    for x in 100_000u32..110_000 {
        assert_eq!(b.contains(x), (x - 100_000) % 3 == 0);
    }
    b.optimize();
    assert_eq!(b.len(), before);
    assert!(b.assert_invariants());
}

#[test]
fn from_shards_reassembles_the_union() {
    let mut s0 = RoaringBitmap::new();
    let mut s1 = RoaringBitmap::new();
    s0.insert(0x0000_0005);
    s0.insert(0x0002_0001);
    s1.insert(0x0001_0007);
    s1.insert(0x0003_0000);
    let whole = RoaringBitmap::from_shards(vec![s0, s1]);
    assert_eq!(whole.len(), 4);
    for x in [0x0000_0005u32, 0x0002_0001, 0x0001_0007, 0x0003_0000] {
        assert!(whole.contains(x));
    }
    assert!(whole.assert_invariants());
    assert!(RoaringBitmap::from_shards(Vec::new()).is_empty());
}

#[test]
fn from_shards_merges_overlapping_and_many_shards() {
    let mut shards = Vec::new();
    for s in 0u32..8 {
        let mut b = RoaringBitmap::new();
        for k in 0u32..16 {
            if k % 8 == s {
                for low in 0u32..5000 {
                    b.insert((k << 16) | low);
                }
            }
        }
        shards.push(b);
    }
    let whole = RoaringBitmap::from_shards(shards);
    assert_eq!(whole.len(), 16 * 5000);
    assert!(whole.contains((15 << 16) | 4999) && !whole.contains(16 << 16));
    assert!(whole.assert_invariants());
    // Shards that share a key still give the union.
    let mut a = RoaringBitmap::new();
    let mut b = RoaringBitmap::new();
    a.insert(7);
    a.insert(1 << 16);
    b.insert(7);
    b.insert(8);
    let u = RoaringBitmap::from_shards(vec![a, b]);
    assert_eq!(u.len(), 3);
    assert!(u.contains(8) && u.contains(1 << 16));
}

#[test]
fn bloated_run_list_of_few_values_keeps_the_structure_legal() {
    // A run container of three values, then isolated values until the run list is
    // bloated: holding only 2051 values, it becomes an array, never a small bitmap.
    let mut b = RoaringBitmap::new();
    for x in 0u32..3 {
        b.insert(x);
    }
    b.optimize();
    let mut v = 4u32;
    for _ in 0..2048 {
        b.insert(v);
        v += 2;
    }
    assert_eq!(b.len(), 2051);
    assert!(b.assert_invariants());
}

#[test]
fn inserts_and_removes_alone_keep_bitmaps_above_threshold() {
    // Without run containers, every bitmap container keeps more than 4096 values: crossing
    // the threshold in either direction converts the container.
    let mut b = RoaringBitmap::new();
    for x in 0u32..5000 {
        b.insert(x * 2);
        b.insert(0x0001_0000 + x);
    }
    assert!(b.assert_invariants());
    for x in 0u32..1000 {
        b.remove(x * 2);
        assert!(b.assert_invariants());
    }
    let mut c = RoaringBitmap::new();
    for x in 3000u32..8000 {
        c.insert(x * 2);
    }
    assert!(b.or(&c).assert_invariants());
    assert!(b.and(&c).assert_invariants());
    b.optimize();
    assert!(b.assert_invariants());
}

#[test]
fn clone_is_independent() {
    let mut a = RoaringBitmap::new();
    a.insert(10);
    let mut c = a.clone();
    c.insert(11);
    assert!(!a.contains(11));
    assert!(c.contains(10) && c.contains(11));
    let d = RoaringBitmap::default();
    assert!(d.is_empty());
}

/// Every pair of container representations meets under some key; `and`/`or` must agree with
/// a plain set model on all of those keys' values.
#[test]
fn kernels_cover_every_representation_pair() {
    let k = |key: u32, low: u32| (key << 16) | low;
    let mut a = RoaringBitmap::new();
    let mut b = RoaringBitmap::new();
    // Runs first (inserted, then optimized), so later inserts keep other keys as they are.
    for key in [2u32, 3, 5, 7] {
        for low in 1000..9000 {
            a.insert(k(key, low));
        }
    }
    for key in [1u32, 2, 6] {
        for low in (0..30_000).filter(|l| l % 100 < 60) {
            b.insert(k(key, low));
        }
    }
    a.optimize();
    b.optimize();
    // Arrays and bitmaps.
    for low in (0..8000).step_by(3) {
        a.insert(k(0, low)); // array
        a.insert(k(6, low)); // array
    }
    for low in 0..6000 {
        a.insert(k(1, low * 2)); // bitmap
        a.insert(k(4, low * 3)); // bitmap
        b.insert(k(0, low * 5)); // bitmap
        b.insert(k(4, low * 7)); // bitmap
    }
    for low in (0..4000).step_by(2) {
        b.insert(k(3, low)); // array
        b.insert(k(5, low + 1)); // array
    }
    for low in 0..2500 {
        b.insert(k(7, low * 11)); // array, union with a's run exceeds 4096
    }
    let mut ma = BTreeSet::new();
    let mut mb = BTreeSet::new();
    for x in 0u32..(8 << 16) {
        if a.contains(x) {
            ma.insert(x);
        }
        if b.contains(x) {
            mb.insert(x);
        }
    }
    assert_eq!(a.len() as usize, ma.len());
    assert_eq!(b.len() as usize, mb.len());
    let i = a.and(&b);
    let u = a.or(&b);
    let mi: BTreeSet<u32> = ma.intersection(&mb).copied().collect();
    let mu: BTreeSet<u32> = ma.union(&mb).copied().collect();
    assert_eq!(i.len() as usize, mi.len());
    assert_eq!(u.len() as usize, mu.len());
    for x in 0u32..(8 << 16) {
        assert_eq!(i.contains(x), mi.contains(&x));
        assert_eq!(u.contains(x), mu.contains(&x));
    }
}
