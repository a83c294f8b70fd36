use concurrent_roaring::RoaringBitmap;
use roaring::RoaringBitmap as RefBitmap;

#[test]
fn operators_delegate_to_methods() {
    let mut a = RoaringBitmap::new();
    let mut b = RoaringBitmap::new();
    for x in [1u32, 2, 3, 100, 70_000, 70_001] {
        a.insert(x);
    }
    for x in [2u32, 3, 4, 70_001, 200_000] {
        b.insert(x);
    }
    // Operator forms must agree with the named methods.
    assert_eq!((&a & &b).len(), a.and(&b).len());
    assert_eq!((&a | &b).len(), a.or(&b).len());

    let mut c = a.clone();
    c &= &b;
    assert_eq!(c.len(), a.and(&b).len());
    let mut d = a.clone();
    d |= &b;
    assert_eq!(d.len(), a.or(&b).len());
}

#[test]
fn boundary_units() {
    let mut ours = RoaringBitmap::new();
    let mut refb = RefBitmap::new();
    for x in [0u32, u32::MAX, 0xFFFF, 0x1_0000] {
        assert_eq!(ours.insert(x), refb.insert(x));
    }
    for x in [0u32, u32::MAX, 0xFFFF, 0x1_0000, 1, 0xFFFE, 0x1_0001] {
        assert_eq!(
            ours.contains(x),
            refb.contains(x),
            "contains disagree at {x}"
        );
    }
    assert_eq!(ours.len(), refb.len());
    assert!(ours.assert_invariants());
}

/// A fixed pseudo-random stream of operations, applied to ours and to the reference.
#[test]
fn matches_roaring_crate_on_a_fixed_stream() {
    let mut ours = RoaringBitmap::new();
    let mut refb = RefBitmap::new();
    let mut state: u64 = 0x1234_5678_9ABC_DEF0;
    for step in 0..20_000u32 {
        state = state.wrapping_mul(6364136223846793005).wrapping_add(1442695040888963407);
        let r = (state >> 33) as u32;
        let x = if r % 2 == 0 { r % 300_000 } else { r.wrapping_mul(2654435761) };
        match (state >> 20) % 3 {
            0 => assert_eq!(ours.insert(x), refb.insert(x)),
            1 => assert_eq!(ours.remove(x), refb.remove(x)),
            _ => assert_eq!(ours.contains(x), refb.contains(x)),
        }
        if step == 10_000 {
            ours.optimize();
        }
    }
    ours.optimize();
    assert_eq!(ours.len(), refb.len());
    for x in refb.iter() {
        assert!(ours.contains(x));
    }
}

#[test]
fn setops_match_roaring_crate_on_fixed_sets() {
    let mut a = RoaringBitmap::new();
    let mut ra = RefBitmap::new();
    let mut b = RoaringBitmap::new();
    let mut rb = RefBitmap::new();
    for x in 0u32..6000 {
        let va = x.wrapping_mul(37) % 90_000;
        let vb = x.wrapping_mul(53) % 90_000 + (x % 7) * 65536;
        a.insert(va);
        ra.insert(va);
        b.insert(vb);
        rb.insert(vb);
    }
    for x in 200_000u32..210_000 {
        a.insert(x);
        ra.insert(x);
    }
    a.optimize();
    let ours_and = a.and(&b);
    let ref_and = &ra & &rb;
    assert_eq!(ours_and.len(), ref_and.len());
    for x in ref_and.iter() {
        assert!(ours_and.contains(x));
    }
    let ours_or = a.or(&b);
    let ref_or = &ra | &rb;
    assert_eq!(ours_or.len(), ref_or.len());
    for x in ref_or.iter() {
        assert!(ours_or.contains(x));
    }
}
