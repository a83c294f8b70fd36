//! Deterministic benchmark datasets, shared by benchmarks and tests. Seeds are pinned so
//! every run draws the same data.

use vstd::prelude::*;
use rand::rngs::StdRng;
use rand::seq::SliceRandom;
use rand::{Rng, SeedableRng};
use crate::bitmap::{join, joined, lemma_key_low};

verus! {

#[verifier::external_type_specification]
#[verifier::external_body]
pub struct ExStdRng(StdRng);

/// `SeedableRng::seed_from_u64` for `StdRng`: a generator seeded from `seed`. Nothing is
/// stated of the generator, which is opaque here.
#[verifier::external_body]
fn seeded_rng(seed: u64) -> StdRng {
    StdRng::seed_from_u64(seed)
}

/// `Rng::random::<u32>`: a uniformly drawn `u32`; any value may come back.
#[verifier::external_body]
fn random_u32(rng: &mut StdRng) -> u32 {
    rng.random::<u32>()
}

/// `Rng::random_range(lo..=hi)` on `u32`: a value within the inclusive range. The range
/// must not be empty (the call panics on an empty range).
#[verifier::external_body]
fn random_u32_in(rng: &mut StdRng, lo: u32, hi: u32) -> (r: u32)
    requires
        lo <= hi,
    ensures
        lo <= r <= hi,
{
    rng.random_range(lo..=hi)
}

/// `Rng::random_range(0..n)` on `usize`: an index below `n`. The range must not be empty
/// (the call panics on an empty range).
#[verifier::external_body]
fn random_index(rng: &mut StdRng, n: usize) -> (r: usize)
    requires
        n > 0,
    ensures
        r < n,
{
    rng.random_range(0..n)
}

/// `SliceRandom::shuffle`: permutes the elements in place (a sequence of swaps), so the
/// multiset of elements is unchanged; which permutation comes out is not stated.
#[verifier::external_body]
fn shuffle_u32(v: &mut Vec<u32>, rng: &mut StdRng)
    ensures
        final(v)@.to_multiset() == old(v)@.to_multiset(),
{
    v.shuffle(rng)
}

/// `0..1_000_000`: contiguous, so long runs and full bitmap containers.
pub fn dense() -> (v: Vec<u32>)
    ensures
        v@ == Seq::new(1_000_000, |i: int| i as u32),
{
    let mut v: Vec<u32> = Vec::new();
    let mut i: u32 = 0;
    while i < 1_000_000
        invariant
            i <= 1_000_000,
            v@ == Seq::new(i as nat, |k: int| k as u32),
        decreases 1_000_000 - i,
    {
        v.push(i);
        i = i + 1;
        proof {
            assert(v@ =~= Seq::new(i as nat, |k: int| k as u32));
        }
    }
    v
}

/// 1,000,000 uniform random draws (duplicates permitted): about 15 values per key, so
/// array containers.
pub fn sparse() -> (v: Vec<u32>)
    ensures
        v@.len() == 1_000_000,
{
    let mut rng = seeded_rng(0xDEAD_BEEF);
    let mut v: Vec<u32> = Vec::new();
    let mut i: usize = 0;
    while i < 1_000_000
        invariant
            i <= 1_000_000,
            v@.len() == i,
        decreases 1_000_000 - i,
    {
        v.push(random_u32(&mut rng));
        i = i + 1;
    }
    v
}

/// 1,000 random bases, each contributing the 1,000 values `base .. base + 1000`: a mixture of
/// runs and arrays. Block `b` starts at a base of at most `u32::MAX - 1000` and counts up
/// by one.
pub fn clustered() -> (v: Vec<u32>)
    ensures
        v@.len() == 1_000_000,
        forall|b: int, j: int|
            0 <= b < 1000 && 0 <= j < 1000 ==> #[trigger] v@[1000 * b + j] == v@[1000 * b] + j,
        forall|b: int| 0 <= b < 1000 ==> #[trigger] v@[1000 * b] <= u32::MAX - 1000,
{
    let mut rng = seeded_rng(0x00C0_FFEE);
    let mut out: Vec<u32> = Vec::with_capacity(1_000_000);
    let mut b: usize = 0;
    while b < 1000
        invariant
            b <= 1000,
            out@.len() == 1000 * b,
            forall|bb: int, j: int|
                0 <= bb < b && 0 <= j < 1000 ==> #[trigger] out@[1000 * bb + j] == out@[1000 * bb]
                    + j,
            forall|bb: int| 0 <= bb < b ==> #[trigger] out@[1000 * bb] <= u32::MAX - 1000,
        decreases 1000 - b,
    {
        // Cap the base so `base + 1_000` cannot overflow `u32`.
        let base = random_u32_in(&mut rng, 0, u32::MAX - 1_000);
        let mut x = base;
        while x < base + 1_000
            invariant
                b < 1000,
                base <= u32::MAX - 1000,
                base <= x <= base + 1000,
                out@.len() == 1000 * b + (x - base),
                forall|bb: int, j: int|
                    0 <= bb < b && 0 <= j < 1000 ==> #[trigger] out@[1000 * bb + j] == out@[1000
                        * bb] + j,
                forall|bb: int| 0 <= bb < b ==> #[trigger] out@[1000 * bb] <= u32::MAX - 1000,
                forall|j: int| 0 <= j < x - base ==> #[trigger] out@[1000 * b + j] == base + j,
            decreases base + 1000 - x,
        {
            let ghost prev = out@;
            out.push(x);
            proof {
                assert forall|bb: int, j: int|
                    0 <= bb < b && 0 <= j < 1000 implies #[trigger] out@[1000 * bb + j] == out@[1000
                        * bb] + j by {
                    assert(out@[1000 * bb + j] == prev[1000 * bb + j]);
                    assert(out@[1000 * bb] == prev[1000 * bb]);
                }
                assert forall|bb: int| 0 <= bb < b implies #[trigger] out@[1000 * bb] <= u32::MAX
                    - 1000 by {
                    assert(out@[1000 * bb] == prev[1000 * bb]);
                }
                assert forall|j: int| 0 <= j < x + 1 - base implies #[trigger] out@[1000 * b + j]
                    == base + j by {
                    if j < x - base {
                        assert(out@[1000 * b + j] == prev[1000 * b + j]);
                    }
                }
            }
            x = x + 1;
        }
        proof {
            assert(out@[1000 * b + 0] == base);
        }
        b = b + 1;
    }
    out
}

/// 500,000 hits sampled (with replacement) from `data` plus 500,000 uniform random `u32`,
/// shuffled together: a probe stream with about half hits. The result is a permutation of
/// a sequence whose first half is drawn from `data`.
pub fn probes(data: &[u32]) -> (v: Vec<u32>)
    requires
        data@.len() > 0,
    ensures
        v@.len() == 1_000_000,
        exists|pre: Seq<u32>|
            #![trigger pre.to_multiset()]
            {
                &&& pre.len() == 1_000_000
                &&& forall|i: int| 0 <= i < 500_000 ==> data@.contains(#[trigger] pre[i])
                &&& v@.to_multiset() == pre.to_multiset()
            },
{
    let mut rng = seeded_rng(0xFEED_BEEF);
    let mut out: Vec<u32> = Vec::with_capacity(1_000_000);
    let mut i: usize = 0;
    while i < 500_000
        invariant
            data@.len() > 0,
            i <= 500_000,
            out@.len() == i,
            forall|k: int| 0 <= k < i ==> data@.contains(#[trigger] out@[k]),
        decreases 500_000 - i,
    {
        let idx = random_index(&mut rng, data.len());
        proof {
            assert(data@[idx as int] == data@[idx as int]);
        }
        out.push(data[idx]);
        i = i + 1;
    }
    while i < 1_000_000
        invariant
            500_000 <= i <= 1_000_000,
            out@.len() == i,
            forall|k: int| 0 <= k < 500_000 ==> data@.contains(#[trigger] out@[k]),
        decreases 1_000_000 - i,
    {
        out.push(random_u32(&mut rng));
        i = i + 1;
    }
    let ghost pre = out@;
    shuffle_u32(&mut out, &mut rng);
    proof {
        pre.to_multiset_ensures();
        out@.to_multiset_ensures();
    }
    out
}

/// `n` distinct values spread evenly over `shards` keys: value `i` has key `i % shards` and
/// low part `i / shards`, so each key owns a dense low range and the keys fill round-robin.
pub fn balanced(n: u32, shards: u32) -> (v: Vec<u32>)
    requires
        0 < shards <= 65536,
        n as int <= shards as int * 65536,
    ensures
        v@.len() == n,
        forall|i: int|
            0 <= i < n ==> #[trigger] v@[i] == joined(
                (i % shards as int) as u16,
                (i / shards as int) as u16,
            ),
        forall|i: int, j: int| 0 <= i < j < n ==> v@[i] != v@[j],
{
    let mut v: Vec<u32> = Vec::new();
    let mut i: u32 = 0;
    while i < n
        invariant
            0 < shards <= 65536,
            n as int <= shards as int * 65536,
            i <= n,
            v@.len() == i,
            forall|k: int|
                0 <= k < i ==> #[trigger] v@[k] == joined(
                    (k % shards as int) as u16,
                    (k / shards as int) as u16,
                ),
        decreases n - i,
    {
        let key = i % shards;
        let low = i / shards;
        proof {
            assert(low < 65536) by (nonlinear_arith)
                requires
                    low == i as int / shards as int,
                    i < n,
                    n as int <= shards as int * 65536,
                    shards > 0,
            ;
        }
        v.push(join(key as u16, low as u16));
        i = i + 1;
    }
    proof {
        assert forall|a: int, b: int| 0 <= a < b < n implies v@[a] != v@[b] by {
            let s = shards as int;
            lemma_key_low(0, (a % s) as u16, (a / s) as u16);
            lemma_key_low(0, (b % s) as u16, (b / s) as u16);
            assert(a == s * (a / s) + a % s && b == s * (b / s) + b % s) by (nonlinear_arith)
                requires
                    s > 0,
            ;
            assert(a / s < 65536 && b / s < 65536) by (nonlinear_arith)
                requires
                    0 <= a < b < n,
                    n <= s * 65536,
                    s > 0,
            ;
        }
    }
    v
}

} // verus!
