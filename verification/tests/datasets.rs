use concurrent_roaring::bitmap::datasets;

#[test]
fn dense_is_the_first_million() {
    let d = datasets::dense();
    assert_eq!(d.len(), 1_000_000);
    assert_eq!(d[0], 0);
    assert_eq!(d[999_999], 999_999);
}

#[test]
fn sparse_is_a_million_draws_and_repeats() {
    let a = datasets::sparse();
    let b = datasets::sparse();
    assert_eq!(a.len(), 1_000_000);
    assert_eq!(a, b);
    // Not the identity: the generator was called.
    assert!(a.iter().take(1000).any(|&x| x > 1_000_000));
}

#[test]
fn clustered_is_a_thousand_counting_blocks() {
    let c = datasets::clustered();
    assert_eq!(c.len(), 1_000_000);
    for b in 0..1000 {
        let base = c[1000 * b];
        assert!(base <= u32::MAX - 1000);
        for j in 0..1000 {
            assert_eq!(c[1000 * b + j], base + j as u32);
        }
    }
    // The bases are drawn, not all equal.
    assert!((1..1000).any(|b| c[1000 * b] != c[0]));
}

#[test]
fn probes_half_hit_the_data() {
    let data: Vec<u32> = (0..1000).map(|x| x * 3).collect();
    let p = datasets::probes(&data);
    assert_eq!(p.len(), 1_000_000);
    let hits = p.iter().filter(|&&x| x < 3000 && x % 3 == 0).count();
    assert!(hits >= 500_000);
    // The shuffle moved hits off the front half.
    assert!(p[500_000..].iter().any(|&x| x < 3000 && x % 3 == 0));
}

#[test]
fn balanced_fills_keys_round_robin_with_distinct_values() {
    let v = datasets::balanced(10, 4);
    assert_eq!(
        v,
        vec![0, 1 << 16, 2 << 16, 3 << 16, 1, (1 << 16) | 1, (2 << 16) | 1, (3 << 16) | 1, 2, (1 << 16) | 2]
    );
    let big = datasets::balanced(200_000, 64);
    let mut sorted = big.clone();
    sorted.sort_unstable();
    sorted.dedup();
    assert_eq!(sorted.len(), 200_000);
    assert_eq!(big[199_999], (63 << 16) | 3124);
    let full = datasets::balanced(65536, 1);
    assert_eq!(full[65535], 65535);
}
