//! The decisions of the concurrent Roaring bitmaps: which shard owns a key, the shard count
//! check, and the read-copy-update step of a write. The locking and pointer publication
//! around them live with the concurrent types themselves.

use vstd::prelude::*;
use crate::bitmap::RoaringBitmap;

verus! {

/// Default number of shards.
pub const DEFAULT_SHARDS: usize = 64;

/// `n` is a power of two.
pub open spec fn is_power_of_two(n: nat) -> bool
    decreases n,
{
    if n == 0 {
        false
    } else if n == 1 {
        true
    } else {
        n % 2 == 0 && is_power_of_two(n / 2)
    }
}

/// Whether `n` is a power of two.
pub fn power_of_two(n: usize) -> (r: bool)
    ensures
        r == is_power_of_two(n as nat),
{
    if n == 0 {
        return false;
    }
    let mut m = n;
    while m > 1 && m % 2 == 0
        invariant
            m >= 1,
            is_power_of_two(m as nat) == is_power_of_two(n as nat),
        decreases m,
    {
        m = m / 2;
    }
    m == 1
}

/// The key mask for `n` shards: `n - 1`, when `n` is a power of two (so that `key & mask` is
/// a uniform shard index); `None` otherwise, a count the constructors refuse.
pub fn shard_mask(n: usize) -> (r: Option<usize>)
    ensures
        r == if is_power_of_two(n as nat) {
            Some((n - 1) as usize)
        } else {
            None::<usize>
        },
{
    if power_of_two(n) {
        Some(n - 1)
    } else {
        None
    }
}

/// The shard that owns `key`: its low bits under `mask`. Low bits round-robin consecutive
/// keys across shards, so a clustered dataset spreads over all of them.
pub fn shard_index(key: u16, mask: usize) -> (i: usize)
    ensures
        i == (key as usize) & mask,
        i <= mask,
{
    proof {
        let k = key as usize;
        assert(k & mask <= mask) by (bit_vector);
    }
    (key as usize) & mask
}

/// The read-copy-update step of a write that wants `x` present (`present`) or absent: `None`
/// when the bitmap already agrees (nothing to publish), else the updated copy.
pub fn rcu_update(cur: &RoaringBitmap, x: u32, present: bool) -> (r: Option<RoaringBitmap>)
    ensures
        r is None <==> cur@.contains(x) == present,
        r is Some ==> r->0@ == if present {
            cur@.insert(x)
        } else {
            cur@.remove(x)
        },
{
    if cur.contains(x) == present {
        return None;
    }
    let mut next = cur.clone();
    if present {
        next.insert(x);
    } else {
        next.remove(x);
    }
    Some(next)
}

} // verus!
