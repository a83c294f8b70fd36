use concurrent_roaring::concurrent::{power_of_two, rcu_update, shard_index, shard_mask, DEFAULT_SHARDS};
use concurrent_roaring::RoaringBitmap;

#[test]
fn shard_count_must_be_a_power_of_two() {
    assert_eq!(shard_mask(DEFAULT_SHARDS), Some(63));
    assert_eq!(shard_mask(1), Some(0));
    assert_eq!(shard_mask(0), None);
    assert_eq!(shard_mask(48), None);
    assert!(power_of_two(1 << 20));
    assert!(!power_of_two(3));
}

#[test]
fn shard_index_takes_the_low_key_bits() {
    assert_eq!(shard_index(0, 63), 0);
    assert_eq!(shard_index(65, 63), 1);
    assert_eq!(shard_index(0xFFFF, 63), 63);
    assert_eq!(shard_index(0xFFFF, 0), 0);
}

#[test]
fn rcu_update_skips_no_ops() {
    let mut cur = RoaringBitmap::new();
    cur.insert(5);
    assert!(rcu_update(&cur, 5, true).is_none());
    assert!(rcu_update(&cur, 6, false).is_none());
    let next = rcu_update(&cur, 6, true).unwrap();
    assert!(next.contains(5) && next.contains(6));
    assert!(!cur.contains(6));
    let gone = rcu_update(&cur, 5, false).unwrap();
    assert!(gone.is_empty());
}
