# concurrent_roaring

A Roaring bitmap for `u32` values, with its set semantics proved by Verus, and three
concurrent wrappers around it.

A value splits into a 16-bit key and a 16-bit low part; each key owns one container of low
parts, held as a sorted array (up to 4096 values), a 1024-word bitmap, or a list of runs.
The containers convert between representations at fixed thresholds, and `optimize` picks the
smallest one.

## Layout

- `src/` — the verified library.
  - `bitmap.rs`: `RoaringBitmap` (insert, remove, contains, len, optimize, `and`, `or`,
    reassembly from shards), modelled as a `Set<u32>`.
  - `bitmap/datasets.rs`: the seeded benchmark datasets (random draws come from `rand`).
  - `container/`: the three container representations, the `Container` enum with its
    conversion policy, and the set-operation kernels for every pair of representations.
  - `concurrent.rs`: the decisions of the concurrent wrappers (shard routing, shard count
    check, the read-copy-update step of a write).
  - `bits.rs`, `counting.rs`, `sorted.rs`: word bits, counting and run-counting of `u16`
    sets, sorted sequences and binary search.
- `app/` — the concurrent wrappers (sharded `RwLock`, `arc-swap` snapshots,
  `crossbeam-epoch` snapshots) and the multithread benchmark harnesses.
- `tests/` — unit, law and differential tests (against the `roaring` crate).

Verify `src/` with Verus (`verus src/lib.rs`); run the tests with `cargo test`.
