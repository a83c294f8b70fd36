//! `BitmapContainer`: 1024 words of 64 bits plus a cached cardinality, for
//! high-cardinality containers.

use vstd::prelude::*;
use crate::bits::{
    bit_of, lemma_end_bits, lemma_start_mask_bits, start_mask, lemma_bit_ops, lemma_popcount_bound,
    lemma_lowest_bit, lemma_popcount_pos, lemma_split_u16, lemma_word_ext, lemma_zero_bits, popcount,
    popcount_upto,
};
use crate::counting::{
    count_below, lemma_count_bound, lemma_len_bound, lemma_len_is_count, num_runs_of, run_starts,
};
use super::array::ArrayContainer;

verus! {

/// The values whose bits are set in `w`: value `v` is bit `v % 64` of word `v / 64`.
pub open spec fn bm_set(w: Seq<u64>) -> Set<u16> {
    Set::new(|v: u16| bit_of(w[v as int / 64], (v as int % 64) as u64))
}

/// Sum of the population counts of the first `k` words.
pub open spec fn sum_popcount(w: Seq<u64>, k: nat) -> nat
    decreases k,
{
    if k == 0 {
        0
    } else {
        sum_popcount(w, (k - 1) as nat) + popcount(w[k - 1])
    }
}

proof fn lemma_bm_count_prefix(w: Seq<u64>, n: nat)
    requires
        w.len() == 1024,
        n < 65536,
    ensures
        count_below(bm_set(w), n) == sum_popcount(w, n / 64) + popcount_upto(
            w[(n / 64) as int],
            n % 64,
        ),
    decreases n,
{
    if n > 0 {
        let m = (n - 1) as nat;
        lemma_bm_count_prefix(w, m);
        let v = m as u16;
        assert(v as int == m);
        assert(bm_set(w).contains(v) == bit_of(w[(m / 64) as int], (m % 64) as u64));
        if n % 64 == 0 {
            assert(m % 64 == 63);
            assert(n / 64 == m / 64 + 1);
        } else {
            assert(m / 64 == n / 64);
            assert(n % 64 == m % 64 + 1);
        }
    }
}

/// The size of the set of a 1024-word bitmap is the sum of its words' population counts.
pub proof fn lemma_bm_card(w: Seq<u64>)
    requires
        w.len() == 1024,
    ensures
        bm_set(w).len() == sum_popcount(w, 1024),
{
    lemma_len_is_count(bm_set(w));
    lemma_bm_count_prefix(w, 65535);
    let v = 65535u16;
    assert(bm_set(w).contains(v) == bit_of(w[1023], 63));
}

/// A run begins at bit 0 of word `k` but is counted in word `k - 1` too.
pub open spec fn crosses_word(w: Seq<u64>, k: nat) -> bool {
    k > 0 && bit_of(w[k as int], 0) && bit_of(w[k - 1], 63)
}

proof fn lemma_word_starts(w: Seq<u64>, k: nat, j: nat)
    requires
        w.len() == 1024,
        k < 1024,
        j <= 64,
    ensures
        count_below(run_starts(bm_set(w)), 64 * k + j) + (if j >= 1 && crosses_word(w, k) {
            1nat
        } else {
            0nat
        }) == count_below(run_starts(bm_set(w)), 64 * k) + popcount_upto(start_mask(w[k as int]), j),
    decreases j,
{
    if j > 0 {
        let i = (j - 1) as nat;
        lemma_word_starts(w, k, i);
        let n = 64 * k + i;
        let s = bm_set(w);
        let v = n as u16;
        assert(v as int == n);
        assert(n / 64 == k && n % 64 == i) by (nonlinear_arith)
            requires
                n == 64 * k + i,
                i < 64,
        ;
        lemma_start_mask_bits(w[k as int]);
        assert(s.contains(v) == bit_of(w[k as int], i as u64));
        if i == 0 {
            if k > 0 {
                let p = (v - 1) as u16;
                assert(p as int == 64 * (k - 1) + 63);
                assert(p as int / 64 == k - 1 && p as int % 64 == 63) by (nonlinear_arith)
                    requires
                        p as int == 64 * (k - 1) + 63,
                ;
                assert(s.contains(p) == bit_of(w[k - 1], 63));
            }
        } else {
            let p = (v - 1) as u16;
            assert(p as int == 64 * k + i - 1);
            assert(p as int / 64 == k && p as int % 64 == i - 1) by (nonlinear_arith)
                requires
                    p as int == 64 * k + i - 1,
                    1 <= i < 64,
            ;
            assert(s.contains(p) == bit_of(w[k as int], (i - 1) as u64));
        }
    }
}

#[derive(Debug, PartialEq, Eq)]
pub struct BitmapContainer {
    words: Vec<u64>,
    cardinality: u32,
}

impl View for BitmapContainer {
    type V = Set<u16>;

    /// The set of values whose bits are set.
    open spec fn view(&self) -> Set<u16> {
        bm_set(self.words_seq())
    }
}

impl Clone for BitmapContainer {
    fn clone(&self) -> (r: Self)
        ensures
            r.words_seq() == self.words_seq(),
            r.cached() == self.cached(),
    {
        let words = self.words.clone();
        proof {
            assert(words@ =~= self.words@);
        }
        BitmapContainer { words, cardinality: self.cardinality }
    }
}

impl Default for BitmapContainer {
    fn default() -> (r: Self)
        ensures
            r.wf(),
            r@ == Set::<u16>::empty(),
    {
        BitmapContainer::new()
    }
}

impl BitmapContainer {
    /// The 1024 words.
    pub closed spec fn words_seq(&self) -> Seq<u64> {
        self.words@
    }

    /// The cached cardinality.
    pub closed spec fn cached(&self) -> u32 {
        self.cardinality
    }

    /// Exactly 1024 words, and the cached cardinality is the size of the set.
    pub open spec fn wf(&self) -> bool {
        &&& self.words_seq().len() == 1024
        &&& self.cached() == self@.len()
    }

    proof fn lemma_view_contains(&self, v: u16)
        requires
            self.words_seq().len() == 1024,
        ensures
            self@.contains(v) == bit_of(self.words_seq()[(v >> 6u16) as int], (v & 63u16) as u64),
            (v >> 6u16) < 1024,
            (v & 63u16) < 64,
    {
        lemma_split_u16(v);
    }

    pub fn new() -> (r: Self)
        ensures
            r.wf(),
            r@ == Set::<u16>::empty(),
    {
        let words = vec![0u64; 1024];
        let r = BitmapContainer { words, cardinality: 0 };
        proof {
            lemma_zero_bits();
            assert(r@ =~= Set::<u16>::empty());
        }
        r
    }

    /// Builds the bitmap of the values of an array container.
    pub fn from_array(a: &ArrayContainer) -> (r: Self)
        requires
            a.wf(),
        ensures
            r.wf(),
            r@ == a@,
    {
        let mut b = Self::new();
        let vals = a.as_slice();
        let n = vals.len();
        let mut i: usize = 0;
        while i < n
            invariant
                vals@ == a.seq(),
                n == vals@.len(),
                0 <= i <= n,
                b.words_seq().len() == 1024,
                b@ == vals@.subrange(0, i as int).to_set(),
            decreases n - i,
        {
            let v = vals[i];
            let w = (v >> 6) as usize;
            let ghost old_b = b@;
            proof {
                lemma_split_u16(v);
                lemma_bit_ops();
            }
            let old_word = b.words[w];
            b.words[w] = old_word | (1u64 << (v & 63));
            proof {
                assert forall|x: u16| b@.contains(x) == old_b.insert(v).contains(x) by {
                    lemma_split_u16(x);
                    if x as int / 64 == w as int {
                    } else {
                    }
                }
                assert(b@ =~= old_b.insert(v));
                assert(vals@.subrange(0, i + 1) =~= vals@.subrange(0, i as int).push(v));
                vals@.subrange(0, i as int).lemma_push_to_set_commute(v);
            }
            i = i + 1;
        }
        proof {
            assert(vals@.subrange(0, n as int) =~= vals@);
            a.lemma_len();
        }
        b.cardinality = a.cardinality();
        b
    }

    /// Lists the values, in increasing order, as an array container.
    pub fn to_array(&self) -> (r: ArrayContainer)
        requires
            self.wf(),
        ensures
            r.wf(),
            r@ == self@,
    {
        let mut a = ArrayContainer::new();
        let mut wi: usize = 0;
        while wi < 1024
            invariant
                self.wf(),
                a.wf(),
                0 <= wi <= 1024,
                forall|x: u16| #[trigger]
                    a@.contains(x) == (self@.contains(x) && (x as int) < 64 * wi),
            decreases 1024 - wi,
        {
            let word = self.words[wi];
            let mut w = word;
            // Visit the set bits from the lowest up, clearing each once taken.
            while w != 0
                invariant
                    self.wf(),
                    a.wf(),
                    0 <= wi < 1024,
                    word == self.words_seq()[wi as int],
                    forall|j: u64| j < 64 && #[trigger] bit_of(w, j) ==> bit_of(word, j),
                    forall|x: u16| #[trigger]
                        a@.contains(x) == (self@.contains(x) && ((x as int) < 64 * wi || (x as int
                            / 64 == wi && !bit_of(w, (x as int % 64) as u64)))),
                decreases w,
            {
                proof {
                    lemma_lowest_bit(w);
                }
                let bit = w.trailing_zeros();
                let x = (wi as u16) * 64 + (bit as u16);
                proof {
                    assert(x as int / 64 == wi && x as int % 64 == bit);
                    assert(self@.contains(x) == bit_of(word, bit as u64));
                }
                a.insert(x);
                w = w & (w - 1);
                proof {
                    assert forall|y: u16| #[trigger]
                        a@.contains(y) == (self@.contains(y) && ((y as int) < 64 * wi || (y as int
                            / 64 == wi && !bit_of(w, (y as int % 64) as u64)))) by {
                        if y as int / 64 == wi {
                            assert(0 <= y as int % 64 < 64);
                            if y as int % 64 == bit {
                                assert(y == x);
                            }
                        }
                    }
                }
            }
            proof {
                lemma_zero_bits();
                assert forall|y: u16| #[trigger]
                    a@.contains(y) == (self@.contains(y) && (y as int) < 64 * (wi + 1)) by {
                    if (y as int) >= 64 * wi && (y as int) < 64 * (wi + 1) {
                        assert(y as int / 64 == wi);
                    }
                }
            }
            wi = wi + 1;
        }
        proof {
            assert(a@ =~= self@);
        }
        a
    }

    pub fn contains(&self, v: u16) -> (b: bool)
        requires
            self.wf(),
        ensures
            b == self@.contains(v),
    {
        proof {
            self.lemma_view_contains(v);
            lemma_bit_ops();
        }
        let i = (v >> 6) as usize;
        let j: u64 = (v & 63) as u64;
        let mask = 1u64 << j;
        self.words[i] & mask != 0
    }

    /// Inserts `v`; returns whether it was absent.
    pub fn insert(&mut self, v: u16) -> (added: bool)
        requires
            old(self).wf(),
        ensures
            final(self).wf(),
            final(self)@ == old(self)@.insert(v),
            added == !old(self)@.contains(v),
    {
        proof {
            self.lemma_view_contains(v);
            lemma_bit_ops();
            lemma_len_bound(self@);
            lemma_len_bound(self@.insert(v));
        }
        let i = (v >> 6) as usize;
        let j: u64 = (v & 63) as u64;
        let mask = 1u64 << j;
        let prior = self.words[i];
        self.words[i] = prior | mask;
        let added = prior & mask == 0;
        proof {
            assert forall|x: u16| self@.contains(x) == old(self)@.insert(v).contains(x) by {
                lemma_split_u16(x);
                if x as int / 64 == i as int {
                    assert(bit_of(prior | mask, (x as int % 64) as u64) == (bit_of(
                        prior,
                        (x as int % 64) as u64,
                    ) || (x as int % 64) as u64 == j));
                    if (x as int % 64) == j as int {
                        lemma_split_u16(v);
                        assert(x as int == 64 * (x as int / 64) + x as int % 64);
                        assert(v as int == 64 * (v as int / 64) + v as int % 64);
                        assert(x == v);
                    }
                }
            }
            assert(self@ =~= old(self)@.insert(v));
        }
        if added {
            self.cardinality = self.cardinality + 1;
        }
        added
    }

    /// Removes `v`; returns whether it was present.
    pub fn remove(&mut self, v: u16) -> (removed: bool)
        requires
            old(self).wf(),
        ensures
            final(self).wf(),
            final(self)@ == old(self)@.remove(v),
            removed == old(self)@.contains(v),
    {
        proof {
            self.lemma_view_contains(v);
            lemma_bit_ops();
            lemma_len_bound(self@);
        }
        let i = (v >> 6) as usize;
        let j: u64 = (v & 63) as u64;
        let mask = 1u64 << j;
        let prior = self.words[i];
        self.words[i] = prior & !mask;
        let removed = prior & mask != 0;
        proof {
            assert forall|x: u16| self@.contains(x) == old(self)@.remove(v).contains(x) by {
                lemma_split_u16(x);
                if x as int / 64 == i as int {
                    assert(bit_of(prior & !mask, (x as int % 64) as u64) == (bit_of(
                        prior,
                        (x as int % 64) as u64,
                    ) && (x as int % 64) as u64 != j));
                    if (x as int % 64) == j as int {
                        lemma_split_u16(v);
                        assert(x as int == 64 * (x as int / 64) + x as int % 64);
                        assert(v as int == 64 * (v as int / 64) + v as int % 64);
                        assert(x == v);
                    }
                }
            }
            assert(self@ =~= old(self)@.remove(v));
        }
        if removed {
            self.cardinality = self.cardinality - 1;
        }
        removed
    }

    pub fn cardinality(&self) -> (c: u32)
        requires
            self.wf(),
        ensures
            c == self@.len(),
    {
        self.cardinality
    }

    pub fn is_empty(&self) -> (b: bool)
        requires
            self.wf(),
        ensures
            b == (self@.len() == 0),
    {
        self.cardinality == 0
    }

    /// Number of maximal runs of consecutive values.
    pub fn num_runs(&self) -> (r: u32)
        requires
            self.wf(),
        ensures
            r == num_runs_of(self@),
    {
        let ghost w = self.words_seq();
        let ghost rs = run_starts(self@);
        let mut runs: u32 = 0;
        let mut prev: u64 = 0;
        let mut k: usize = 0;
        while k < 1024
            invariant
                self.wf(),
                w == self.words_seq(),
                rs == run_starts(self@),
                0 <= k <= 1024,
                runs == count_below(rs, 64 * k as nat),
                k > 0 ==> prev == w[k - 1],
                k == 0 ==> prev == 0,
            decreases 1024 - k,
        {
            let word = self.words[k];
            let m = word & !(word << 1);
            proof {
                lemma_word_starts(w, k as nat, 64);
                lemma_count_bound(rs, 64 * (k + 1) as nat);
                lemma_end_bits(word);
                lemma_end_bits(prev);
                lemma_zero_bits();
                assert(m == start_mask(word));
                if crosses_word(w, k as nat) {
                    lemma_start_mask_bits(word);
                    lemma_popcount_pos(m);
                }
            }
            runs = runs + m.count_ones();
            if (word & 1) == 1 && (prev >> 63) == 1 {
                runs = runs - 1;
            }
            prev = word;
            k = k + 1;
        }
        proof {
            lemma_len_is_count(rs);
        }
        runs
    }

    /// The words, for the set-operation kernels.
    pub fn words(&self) -> (r: &Vec<u64>)
        ensures
            r@ == self.words_seq(),
    {
        &self.words
    }

    /// Builds a bitmap from 1024 words and the size of their set.
    pub(crate) fn from_words(words: Vec<u64>, cardinality: u32) -> (r: Self)
        requires
            words@.len() == 1024,
            cardinality == bm_set(words@).len(),
        ensures
            r.wf(),
            r.words_seq() == words@,
    {
        BitmapContainer { words, cardinality }
    }
}

/// A bitmap container is determined by its set: two legal ones holding the same values
/// have the same words and the same cached count.
pub proof fn law_bitmap_canonical(a: BitmapContainer, b: BitmapContainer)
    requires
        a.wf(),
        b.wf(),
        a@ == b@,
    ensures
        a.words_seq() == b.words_seq(),
        a.cached() == b.cached(),
{
    assert forall|i: int| 0 <= i < 1024 implies a.words_seq()[i] == b.words_seq()[i] by {
        assert forall|j: u64| j < 64 implies #[trigger] bit_of(a.words_seq()[i], j) == bit_of(
            b.words_seq()[i],
            j,
        ) by {
            let n = 64 * i + j;
            assert(0 <= n < 65536);
            let v = n as u16;
            assert(v as int / 64 == i && v as int % 64 == j) by (nonlinear_arith)
                requires
                    v as int == 64 * i + j,
                    0 <= i < 1024,
                    j < 64,
            ;
            assert((v as int % 64) as u64 == j);
            assert(a@.contains(v) == bit_of(a.words_seq()[v as int / 64], (v as int % 64) as u64));
            assert(b@.contains(v) == bit_of(b.words_seq()[v as int / 64], (v as int % 64) as u64));
        }
        lemma_word_ext(a.words_seq()[i], b.words_seq()[i]);
    }
    assert(a.words_seq() =~= b.words_seq());
}

} // verus!
