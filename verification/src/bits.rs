//! Bits of a `u64` word: membership, masks, and population count.

use vstd::prelude::*;
use vstd::std_specs::bits::axiom_u64_trailing_zeros;

verus! {

/// Bit `j` of `w` is set.
pub open spec fn bit_of(w: u64, j: u64) -> bool {
    (w >> j) & 1u64 == 1u64
}

/// Number of set bits of `w` among positions `0..m`.
pub open spec fn popcount_upto(w: u64, m: nat) -> nat
    decreases m,
{
    if m == 0 {
        0
    } else {
        popcount_upto(w, (m - 1) as nat) + if bit_of(w, (m - 1) as u64) {
            1nat
        } else {
            0nat
        }
    }
}

/// Number of set bits of `w`.
pub open spec fn popcount(w: u64) -> nat {
    popcount_upto(w, 64)
}

/// `u64::count_ones` returns the number of ones in the binary representation of its argument.
pub assume_specification[ u64::count_ones ](i: u64) -> (r: u32)
    ensures
        r == popcount(i),
;

pub proof fn lemma_popcount_bound(w: u64, m: nat)
    ensures
        popcount_upto(w, m) <= m,
    decreases m,
{
    if m > 0 {
        lemma_popcount_bound(w, (m - 1) as nat);
    }
}

/// The zero word has no bit set.
pub proof fn lemma_zero_bits()
    ensures
        forall|j: u64| #![trigger bit_of(0u64, j)] !bit_of(0u64, j),
{
    assert(forall|j: u64| #![trigger (0u64 >> j)] (0u64 >> j) & 1u64 != 1u64) by (bit_vector);
}

/// Bits of a word combined with `&`, `|` and a single-bit mask.
pub proof fn lemma_bit_ops()
    ensures
        forall|a: u64, b: u64, j: u64| #[trigger] bit_of(a & b, j) == (bit_of(a, j) && bit_of(b, j)),
        forall|a: u64, b: u64, j: u64| #[trigger] bit_of(a | b, j) == (bit_of(a, j) || bit_of(b, j)),
        forall|a: u64, j: u64, k: u64|
            j < 64 && k < 64 ==> #[trigger] bit_of(a | (1u64 << j), k) == (bit_of(a, k) || k == j),
        forall|a: u64, j: u64, k: u64|
            j < 64 && k < 64 ==> #[trigger] bit_of(a & !(1u64 << j), k) == (bit_of(a, k) && k != j),
        forall|a: u64, j: u64| j < 64 ==> (#[trigger] (a & (1u64 << j)) != 0u64) == bit_of(a, j),
{
    assert(forall|a: u64, b: u64, j: u64| #![trigger ((a & b) >> j)]
        ((a & b) >> j) & 1u64 == 1u64 <==> ((a >> j) & 1u64 == 1u64 && (b >> j) & 1u64 == 1u64))
        by (bit_vector);
    assert(forall|a: u64, b: u64, j: u64| #![trigger ((a | b) >> j)]
        ((a | b) >> j) & 1u64 == 1u64 <==> ((a >> j) & 1u64 == 1u64 || (b >> j) & 1u64 == 1u64))
        by (bit_vector);
    assert(forall|a: u64, j: u64, k: u64| #![trigger ((a | (1u64 << j)) >> k)]
        j < 64 && k < 64 ==> (((a | (1u64 << j)) >> k) & 1u64 == 1u64 <==> ((a >> k) & 1u64
            == 1u64 || k == j))) by (bit_vector);
    assert(forall|a: u64, j: u64, k: u64| #![trigger ((a & !(1u64 << j)) >> k)]
        j < 64 && k < 64 ==> (((a & !(1u64 << j)) >> k) & 1u64 == 1u64 <==> ((a >> k) & 1u64
            == 1u64 && k != j))) by (bit_vector);
    assert(forall|a: u64, j: u64| #![trigger (a & (1u64 << j))]
        j < 64 ==> ((a & (1u64 << j)) != 0u64 <==> (a >> j) & 1u64 == 1u64)) by (bit_vector);
}

/// Splitting a 16-bit value into its word index and bit position.
pub proof fn lemma_split_u16(v: u16)
    ensures
        (v >> 6u16) as int == v as int / 64,
        (v & 63u16) as int == v as int % 64,
        (v >> 6u16) < 1024,
{
    assert((v >> 6u16) as int == v as int / 64) by (bit_vector);
    assert((v & 63u16) as int == v as int % 64) by (bit_vector);
    assert((v >> 6u16) < 1024) by (bit_vector);
}

} // verus!

verus! {

/// The bits of `w` that begin a run inside the word: set, with bit below clear (or bit 0).
pub open spec fn start_mask(w: u64) -> u64 {
    w & !(w << 1u64)
}

pub proof fn lemma_start_mask_bits(w: u64)
    ensures
        forall|j: u64|
            j < 64 ==> #[trigger] bit_of(start_mask(w), j) == (bit_of(w, j) && (j == 0 || !bit_of(
                w,
                (j - 1) as u64,
            ))),
{
    assert forall|j: u64| j < 64 implies #[trigger] bit_of(start_mask(w), j) == (bit_of(w, j) && (j
        == 0 || !bit_of(w, (j - 1) as u64))) by {
        if j == 0 {
            assert(((w & !(w << 1u64)) >> 0u64) & 1u64 == 1u64 <==> (w >> 0u64) & 1u64 == 1u64)
                by (bit_vector);
        } else {
            let i = (j - 1) as u64;
            assert(j == i + 1);
            assert(((w & !(w << 1u64)) >> j) & 1u64 == 1u64 <==> ((w >> j) & 1u64 == 1u64 && !((w
                >> i) & 1u64 == 1u64))) by (bit_vector)
                requires
                    j == i + 1,
                    j < 64,
            ;
        }
    }
}

/// Tests on the lowest and highest bit of a word.
pub proof fn lemma_end_bits(w: u64)
    ensures
        ((w & 1u64) == 1u64) == bit_of(w, 0),
        ((w >> 63u64) == 1u64) == bit_of(w, 63),
{
    assert(((w & 1u64) == 1u64) == ((w >> 0u64) & 1u64 == 1u64)) by (bit_vector);
    assert(((w >> 63u64) == 1u64) == ((w >> 63u64) & 1u64 == 1u64)) by (bit_vector);
}

} // verus!

verus! {

/// A word with bit 0 set has a positive population count.
pub proof fn lemma_popcount_pos(w: u64)
    requires
        bit_of(w, 0),
    ensures
        popcount(w) >= 1,
{
    lemma_popcount_mono(w, 1, 64);
}

/// Counting set bits is monotone in the bound.
pub proof fn lemma_popcount_mono(w: u64, a: nat, b: nat)
    requires
        a <= b,
    ensures
        popcount_upto(w, a) <= popcount_upto(w, b),
    decreases b - a,
{
    if a < b {
        lemma_popcount_mono(w, a, (b - 1) as nat);
    }
}

} // verus!

verus! {

/// The mask of bits `lo ..= hi` of a word.
pub proof fn lemma_range_mask(lo: u64, hi: u64)
    requires
        lo <= hi < 64,
    ensures
        forall|j: u64|
            j < 64 ==> #[trigger] bit_of((!0u64 << lo) & (!0u64 >> (63 - hi) as u64), j) == (lo <= j
                && j <= hi),
{
    let k = (63 - hi) as u64;
    assert(forall|j: u64| #![trigger ((((!0u64 << lo) & (!0u64 >> k)) >> j) & 1u64)]
        j < 64 && lo < 64 && k < 64 ==> (((((!0u64 << lo) & (!0u64 >> k)) >> j) & 1u64 == 1u64) <==> (
        lo <= j && j <= 63 - k))) by (bit_vector);
}

} // verus!

verus! {

proof fn lemma_shift_step(a: u64, b: u64, j: u64, k: u64)
    by (bit_vector)
    requires
        j < 63,
        k == j + 1,
        a >> k == b >> k,
        (a >> j) & 1u64 == (b >> j) & 1u64,
    ensures
        a >> j == b >> j,
{
}

/// Words agreeing on bits `j..64` agree once shifted down by `j`.
proof fn lemma_word_ext_from(a: u64, b: u64, j: u64)
    requires
        j < 64,
        forall|i: u64| j <= i < 64 ==> #[trigger] bit_of(a, i) == bit_of(b, i),
    ensures
        a >> j == b >> j,
    decreases 64 - j,
{
    assert(bit_of(a, j) == bit_of(b, j));
    assert((a >> j) & 1u64 <= 1u64 && (b >> j) & 1u64 <= 1u64) by (bit_vector);
    if j == 63 {
        assert(a >> 63u64 == (a >> 63u64) & 1u64 && b >> 63u64 == (b >> 63u64) & 1u64)
            by (bit_vector);
    } else {
        lemma_word_ext_from(a, b, (j + 1) as u64);
        lemma_shift_step(a, b, j, (j + 1) as u64);
    }
}

/// Two words with the same bits are the same word.
pub proof fn lemma_word_ext(a: u64, b: u64)
    requires
        forall|j: u64| j < 64 ==> #[trigger] bit_of(a, j) == bit_of(b, j),
    ensures
        a == b,
{
    lemma_word_ext_from(a, b, 0);
    assert(a >> 0u64 == a && b >> 0u64 == b) by (bit_vector);
}

} // verus!

verus! {

proof fn lemma_clear_lowest_bv(w: u64, t: u64, k: u64)
    by (bit_vector)
    requires
        0 < t < 64,
        k == 64 - t,
        (w >> t) & 1u64 == 1u64,
        w << k == 0u64,
    ensures
        w & ((w - 1) as u64) == w & !(1u64 << t),
        w & !(1u64 << t) < w,
{
}

proof fn lemma_clear_bit0_bv(w: u64)
    by (bit_vector)
    requires
        w & 1u64 == 1u64,
    ensures
        w & ((w - 1) as u64) == w & !(1u64 << 0u64),
        w & !(1u64 << 0u64) < w,
{
}

/// The lowest set bit of a nonzero word sits at its count of trailing zeros, and
/// `w & (w - 1)` clears exactly that bit.
pub proof fn lemma_lowest_bit(w: u64)
    requires
        w != 0,
    ensures
        w.trailing_zeros() < 64,
        bit_of(w, w.trailing_zeros() as u64),
        forall|j: u64| j < w.trailing_zeros() ==> !#[trigger] bit_of(w, j),
        w & ((w - 1) as u64) < w,
        forall|j: u64|
            j < 64 ==> #[trigger] bit_of(w & ((w - 1) as u64), j) == (bit_of(w, j) && j
                != w.trailing_zeros() as u64),
{
    axiom_u64_trailing_zeros(w);
    let t = w.trailing_zeros() as u64;
    if t == 0 {
        assert(w & 1u64 == 1u64 <==> (w >> 0u64) & 1u64 == 1u64) by (bit_vector);
        lemma_clear_bit0_bv(w);
    } else {
        let k = (64 - t) as u64;
        assert(w << k == 0u64);
        lemma_clear_lowest_bv(w, t, k);
    }
    lemma_bit_ops();
}

} // verus!
