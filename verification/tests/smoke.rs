// Depending on the crate here forces it to link; the test passing is the harness check.
use concurrent_roaring::RoaringBitmap;

#[test]
fn links_crate() {
    let _ = RoaringBitmap::new();
    assert_eq!(1 + 1, 2);
}
